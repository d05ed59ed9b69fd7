use vstd::prelude::*;

use std::collections::HashMap;

use crate::components::{
    abs_spec, pos_ok, CombatStats, EntityDies, EntityFinishedTurn, EntityId, EntityMeleeAttacks,
    EntityMovedEvent, EntitySuffersDamage, MapChangedEvent, VisibilityChangedEvent, Viewshed,
    WorldPos,
};
use crate::dijkstra::{dijkstra_post, distance_at, distance_dijkstra_map, dm_at, dm_contains};
use crate::fov::{fov_post, refresh_area};
use crate::map::{
    bb_contains, lemma_passable_pos_ok, make_new_map, rand_range, room_in_map, BoundingBox,
    GameMap, TileType,
};
use crate::resources::{
    rotate1, BlockedTiles, CacheMap, CombatStatsTiles, EventQueues, PlayerDistanceMap,
    PlayerInputState, PlayerMovedInFrame, PlayerNoAction, TurnOrder,
};

verus! {

/// One simulated actor: its identity, its tile, its capabilities, and its
/// optional combat and vision state.
pub struct Actor {
    pub id: EntityId,
    pub pos: WorldPos,
    pub is_player: bool,
    pub monster_ai: bool,
    pub blocks_movement: bool,
    pub stats: Option<CombatStats>,
    pub viewshed: Option<Viewshed>,
    pub wants_turn_order: bool,
    pub wants_map_indexing: bool,
}

/// The whole simulation state, passed through an ordered sequence of pass
/// functions each cycle.
pub struct GameState {
    pub map: GameMap,
    pub actors: Vec<Actor>,
    pub turn_order: TurnOrder,
    pub blocked: BlockedTiles,
    pub combat_tiles: CombatStatsTiles,
    pub player_map: PlayerDistanceMap,
    pub input: PlayerInputState,
    pub moved_in_frame: PlayerMovedInFrame,
    pub no_action: PlayerNoAction,
    pub events: EventQueues,
}

pub open spec fn actor_ok(a: Actor) -> bool {
    &&& pos_ok(a.pos)
    &&& (a.viewshed matches Some(vs) ==> 0 <= vs.range <= 10000)
}

impl GameState {
    pub open spec fn wf(self) -> bool {
        &&& self.map.wf()
        &&& self.turn_order.wf()
        &&& self.blocked.0.wf()
        &&& self.combat_tiles.0.wf()
        &&& forall|i: int| 0 <= i < self.actors@.len() ==> actor_ok(#[trigger] self.actors@[i])
        &&& forall|i: int, j: int|
            0 <= i < j < self.actors@.len() ==> (#[trigger] self.actors@[i]).id
                != (#[trigger] self.actors@[j]).id
    }

    pub fn new(map: GameMap) -> (r: Self)
        requires
            map.wf(),
        ensures
            r.wf(),
            r.map == map,
            r.actors@.len() == 0,
            r.turn_order.turn_order@.len() == 0,
    {
        GameState {
            map,
            actors: Vec::new(),
            turn_order: TurnOrder::new(),
            blocked: BlockedTiles(CacheMap::new()),
            combat_tiles: CombatStatsTiles(CacheMap::new()),
            player_map: PlayerDistanceMap(HashMap::new()),
            input: PlayerInputState::default(),
            moved_in_frame: PlayerMovedInFrame(false),
            no_action: PlayerNoAction(false),
            events: EventQueues::new(),
        }
    }
}

/// First index of the actor with the given id, or -1 when there is none.
pub open spec fn find_idx(actors: Seq<Actor>, id: EntityId) -> int
    decreases actors.len(),
{
    if actors.len() == 0 {
        -1
    } else if actors[0].id == id {
        0
    } else {
        let r = find_idx(actors.subrange(1, actors.len() as int), id);
        if r == -1 {
            -1
        } else {
            r + 1
        }
    }
}

pub proof fn lemma_find_idx_char(actors: Seq<Actor>, id: EntityId)
    ensures
        find_idx(actors, id) == -1 ==> forall|j: int|
            0 <= j < actors.len() ==> (#[trigger] actors[j]).id != id,
        find_idx(actors, id) != -1 ==> 0 <= find_idx(actors, id) < actors.len() && actors[find_idx(
            actors,
            id,
        )].id == id && forall|j: int| 0 <= j < find_idx(actors, id) ==> (#[trigger] actors[j]).id
            != id,
    decreases actors.len(),
{
    if actors.len() == 0 {
    } else if actors[0].id == id {
    } else {
        let rest = actors.subrange(1, actors.len() as int);
        lemma_find_idx_char(rest, id);
        assert forall|j: int| 1 <= j < actors.len() implies actors[j] == rest[j - 1] by {}
    }
}

/// Find the actor that carries the given identifier.
pub fn find_actor_idx(actors: &Vec<Actor>, id: EntityId) -> (r: Option<usize>)
    ensures
        r matches Some(i) ==> i < actors@.len() && find_idx(actors@, id) == i as int,
        r is None ==> find_idx(actors@, id) == -1,
{
    let n = actors.len();
    let mut i: usize = 0;
    while i < n
        invariant
            n == actors@.len(),
            i <= n,
            forall|j: int| 0 <= j < i ==> (#[trigger] actors@[j]).id != id,
        decreases n - i,
    {
        if actors[i].id == id {
            proof {
                lemma_find_idx_char(actors@, id);
            }
            return Some(i);
        }
        i += 1;
    }
    proof {
        lemma_find_idx_char(actors@, id);
    }
    None
}

/// A tile can be stepped onto when the map allows it and no indexed actor
/// blocks it.
pub fn can_pass(new_wp: WorldPos, map: &GameMap, blocked: &BlockedTiles) -> (r: bool)
    ensures
        r == (map.passable_spec(new_wp) && blocked.0.occupants(new_wp).len() == 0),
{
    map.passable(new_wp) && !blocked.0.has_any(new_wp)
}

/// The queue that results from offering every flagged actor, in order, to
/// the turn order.
pub open spec fn add_all_spec(q: Seq<EntityId>, actors: Seq<Actor>) -> Seq<EntityId>
    decreases actors.len(),
{
    if actors.len() == 0 {
        q
    } else {
        let prev = add_all_spec(q, actors.drop_last());
        let a = actors.last();
        if a.wants_turn_order {
            if prev.contains(a.id) {
                prev
            } else {
                prev.push(a.id)
            }
        } else {
            prev
        }
    }
}

/// The state relation `assign_turn_order` establishes.
pub open spec fn assign_turn_order_rel(pre: GameState, post: GameState) -> bool {
    &&& post.turn_order.turn_order@ == add_all_spec(
            pre.turn_order.turn_order@,
            pre.actors@,
        )
    &&& post.actors@ == pre.actors@
    &&& post.map == pre.map
    &&& post.blocked.0 == pre.blocked.0
    &&& post.combat_tiles.0 == pre.combat_tiles.0
    &&& post.events == pre.events
    &&& post.player_map == pre.player_map
    &&& post.input == pre.input
    &&& post.moved_in_frame == pre.moved_in_frame
    &&& post.no_action == pre.no_action
}

/// Append every actor that asked for a turn-order slot, keeping the queue
/// free of duplicates.
pub fn assign_turn_order(state: &mut GameState)
    requires
        old(state).wf(),
    ensures
        final(state).wf(),
        assign_turn_order_rel(*old(state), *final(state)),
    {
    let n = state.actors.len();
    let mut i: usize = 0;
    while i < n
        invariant
            n == state.actors@.len(),
            i <= n,
            state.turn_order.wf(),
            state.turn_order.turn_order@ == add_all_spec(
                old(state).turn_order.turn_order@,
                old(state).actors@.subrange(0, i as int),
            ),
            state.actors@ == old(state).actors@,
            state.map == old(state).map,
            state.blocked.0 == old(state).blocked.0,
            state.combat_tiles.0 == old(state).combat_tiles.0,
            state.events == old(state).events,
            state.player_map == old(state).player_map,
            state.input == old(state).input,
            state.moved_in_frame == old(state).moved_in_frame,
            state.no_action == old(state).no_action,
            old(state).wf(),
        decreases n - i,
    {
        let a_wants = state.actors[i].wants_turn_order;
        let a_id = state.actors[i].id;
        if a_wants {
            state.turn_order.add_if_not_present(a_id);
        }
        proof {
            let pre = old(state).actors@.subrange(0, i as int);
            let cur = old(state).actors@.subrange(0, i + 1);
            assert(cur.drop_last() =~= pre);
            assert(cur.last() == old(state).actors@[i as int]);
        }
        i += 1;
    }
    proof {
        assert(old(state).actors@.subrange(0, n as int) =~= old(state).actors@);
    }
}

/// The state relation `assign_block_map_indexing` establishes.
pub open spec fn assign_block_map_indexing_rel(pre: GameState, post: GameState) -> bool {
    &&& forall|q: WorldPos, f: EntityId|
            #[trigger] post.blocked.0.occ_has(q, f) == (pre.blocked.0.occ_has(q, f)
                || exists|i: int|
                0 <= i < pre.actors@.len() && (#[trigger] pre.actors@[i]).id == f
                    && pre.actors@[i].pos == q && pre.actors@[i].wants_map_indexing
                    && pre.actors@[i].blocks_movement)
    &&& post.actors@ == pre.actors@
    &&& post.map == pre.map
    &&& post.turn_order == pre.turn_order
    &&& post.combat_tiles.0 == pre.combat_tiles.0
    &&& post.events == pre.events
    &&& post.player_map == pre.player_map
    &&& post.input == pre.input
    &&& post.moved_in_frame == pre.moved_in_frame
    &&& post.no_action == pre.no_action
}

/// Index every actor that asked for map indexing and blocks movement.
pub fn assign_block_map_indexing(state: &mut GameState)
    requires
        old(state).wf(),
    ensures
        final(state).wf(),
        assign_block_map_indexing_rel(*old(state), *final(state)),
    {
    let n = state.actors.len();
    let mut i: usize = 0;
    while i < n
        invariant
            n == state.actors@.len(),
            i <= n,
            state.blocked.0.wf(),
            forall|q: WorldPos, f: EntityId|
                #[trigger] state.blocked.0.occ_has(q, f) == (old(state).blocked.0.occ_has(q, f)
                    || exists|k: int|
                    0 <= k < i && (#[trigger] old(state).actors@[k]).id == f && old(
                        state,
                    ).actors@[k].pos == q && old(state).actors@[k].wants_map_indexing && old(
                        state,
                    ).actors@[k].blocks_movement),
            state.actors@ == old(state).actors@,
            state.map == old(state).map,
            state.turn_order == old(state).turn_order,
            state.combat_tiles.0 == old(state).combat_tiles.0,
            state.events == old(state).events,
            state.player_map == old(state).player_map,
            state.input == old(state).input,
            state.moved_in_frame == old(state).moved_in_frame,
            state.no_action == old(state).no_action,
            old(state).wf(),
        decreases n - i,
    {
        let flagged = state.actors[i].wants_map_indexing && state.actors[i].blocks_movement;
        let a_id = state.actors[i].id;
        let a_pos = state.actors[i].pos;
        if flagged {
            state.blocked.0.add_entity(a_pos, a_id);
        }
        i += 1;
    }
}

/// The state relation `assign_combat_map_indexing` establishes.
pub open spec fn assign_combat_map_indexing_rel(pre: GameState, post: GameState) -> bool {
    &&& forall|q: WorldPos, f: EntityId|
            #[trigger] post.combat_tiles.0.occ_has(q, f) == (pre.combat_tiles.0.occ_has(q, f) || exists|i: int|
                0 <= i < pre.actors@.len() && (#[trigger] pre.actors@[i]).id == f
                    && pre.actors@[i].pos == q && pre.actors@[i].wants_map_indexing
                    && pre.actors@[i].stats is Some)
    &&& post.actors@ == pre.actors@
    &&& post.map == pre.map
    &&& post.turn_order == pre.turn_order
    &&& post.blocked.0 == pre.blocked.0
    &&& post.events == pre.events
    &&& post.player_map == pre.player_map
    &&& post.input == pre.input
    &&& post.moved_in_frame == pre.moved_in_frame
    &&& post.no_action == pre.no_action
}

/// Index every actor that asked for map indexing and can take part in
/// combat.
pub fn assign_combat_map_indexing(state: &mut GameState)
    requires
        old(state).wf(),
    ensures
        final(state).wf(),
        assign_combat_map_indexing_rel(*old(state), *final(state)),
    {
    let n = state.actors.len();
    let mut i: usize = 0;
    while i < n
        invariant
            n == state.actors@.len(),
            i <= n,
            state.combat_tiles.0.wf(),
            forall|q: WorldPos, f: EntityId|
                #[trigger] state.combat_tiles.0.occ_has(q, f) == (old(
                    state,
                ).combat_tiles.0.occ_has(q, f) || exists|k: int|
                    0 <= k < i && (#[trigger] old(state).actors@[k]).id == f && old(
                        state,
                    ).actors@[k].pos == q && old(state).actors@[k].wants_map_indexing && old(
                        state,
                    ).actors@[k].stats is Some),
            state.actors@ == old(state).actors@,
            state.map == old(state).map,
            state.turn_order == old(state).turn_order,
            state.blocked.0 == old(state).blocked.0,
            state.events == old(state).events,
            state.player_map == old(state).player_map,
            state.input == old(state).input,
            state.moved_in_frame == old(state).moved_in_frame,
            state.no_action == old(state).no_action,
            old(state).wf(),
        decreases n - i,
    {
        let flagged = state.actors[i].wants_map_indexing && state.actors[i].stats.is_some();
        let a_id = state.actors[i].id;
        let a_pos = state.actors[i].pos;
        if flagged {
            state.combat_tiles.0.add_entity(a_pos, a_id);
        }
        i += 1;
    }
}

/// The state relation `clear_indexing_requests` establishes.
pub open spec fn clear_indexing_requests_rel(pre: GameState, post: GameState) -> bool {
    &&& post.actors@.len() == pre.actors@.len()
    &&& forall|i: int|
            0 <= i < post.actors@.len() ==> #[trigger] post.actors@[i] == (Actor {
                wants_map_indexing: false,
                ..pre.actors@[i]
            })
    &&& post.map == pre.map
    &&& post.turn_order == pre.turn_order
    &&& post.blocked.0 == pre.blocked.0
    &&& post.combat_tiles.0 == pre.combat_tiles.0
    &&& post.events == pre.events
    &&& post.player_map == pre.player_map
    &&& post.input == pre.input
    &&& post.moved_in_frame == pre.moved_in_frame
    &&& post.no_action == pre.no_action
}

/// Drop the request flags once the indexing passes have run.
pub fn clear_indexing_requests(state: &mut GameState)
    requires
        old(state).wf(),
    ensures
        final(state).wf(),
        clear_indexing_requests_rel(*old(state), *final(state)),
    {
    let n = state.actors.len();
    let mut i: usize = 0;
    while i < n
        invariant
            n == state.actors@.len(),
            i <= n,
            forall|j: int|
                0 <= j < i ==> #[trigger] state.actors@[j] == (Actor {
                    wants_map_indexing: false,
                    ..old(state).actors@[j]
                }),
            forall|j: int| i <= j < n ==> #[trigger] state.actors@[j] == old(state).actors@[j],
            state.map == old(state).map,
            state.turn_order == old(state).turn_order,
            state.blocked.0 == old(state).blocked.0,
            state.combat_tiles.0 == old(state).combat_tiles.0,
            state.events == old(state).events,
            state.player_map == old(state).player_map,
            state.input == old(state).input,
            state.moved_in_frame == old(state).moved_in_frame,
            state.no_action == old(state).no_action,
            old(state).wf(),
        decreases n - i,
    {
        let a = &mut state.actors[i];
        a.wants_map_indexing = false;
        i += 1;
    }
    proof {
        assert forall|i2: int|
            0 <= i2 < state.actors@.len() implies actor_ok(#[trigger] state.actors@[i2]) by {
            assert(state.actors@[i2].pos == old(state).actors@[i2].pos);
            assert(state.actors@[i2].viewshed == old(state).actors@[i2].viewshed);
        }
        assert forall|i2: int, j2: int|
            0 <= i2 < j2 < state.actors@.len() implies (#[trigger] state.actors@[i2]).id
            != (#[trigger] state.actors@[j2]).id by {}
    }
}

/// The state relation `clear_turn_order_requests` establishes.
pub open spec fn clear_turn_order_requests_rel(pre: GameState, post: GameState) -> bool {
    &&& post.actors@.len() == pre.actors@.len()
    &&& forall|i: int|
            0 <= i < post.actors@.len() ==> #[trigger] post.actors@[i] == (Actor {
                wants_turn_order: false,
                ..pre.actors@[i]
            })
    &&& post.map == pre.map
    &&& post.turn_order == pre.turn_order
    &&& post.blocked.0 == pre.blocked.0
    &&& post.combat_tiles.0 == pre.combat_tiles.0
    &&& post.events == pre.events
    &&& post.player_map == pre.player_map
    &&& post.input == pre.input
    &&& post.moved_in_frame == pre.moved_in_frame
    &&& post.no_action == pre.no_action
}

/// Drop the turn-order request flags once assignment has run.
pub fn clear_turn_order_requests(state: &mut GameState)
    requires
        old(state).wf(),
    ensures
        final(state).wf(),
        clear_turn_order_requests_rel(*old(state), *final(state)),
    {
    let n = state.actors.len();
    let mut i: usize = 0;
    while i < n
        invariant
            n == state.actors@.len(),
            i <= n,
            forall|j: int|
                0 <= j < i ==> #[trigger] state.actors@[j] == (Actor {
                    wants_turn_order: false,
                    ..old(state).actors@[j]
                }),
            forall|j: int| i <= j < n ==> #[trigger] state.actors@[j] == old(state).actors@[j],
            state.map == old(state).map,
            state.turn_order == old(state).turn_order,
            state.blocked.0 == old(state).blocked.0,
            state.combat_tiles.0 == old(state).combat_tiles.0,
            state.events == old(state).events,
            state.player_map == old(state).player_map,
            state.input == old(state).input,
            state.moved_in_frame == old(state).moved_in_frame,
            state.no_action == old(state).no_action,
            old(state).wf(),
        decreases n - i,
    {
        let a = &mut state.actors[i];
        a.wants_turn_order = false;
        i += 1;
    }
    proof {
        assert forall|i2: int|
            0 <= i2 < state.actors@.len() implies actor_ok(#[trigger] state.actors@[i2]) by {
            assert(state.actors@[i2].pos == old(state).actors@[i2].pos);
            assert(state.actors@[i2].viewshed == old(state).actors@[i2].viewshed);
        }
    }
}

/// Reset the per-frame player flags at the top of a frame.
pub fn clear_player_moved_in_frame(state: &mut GameState)
    requires
        old(state).wf(),
    ensures
        final(state).wf(),
        final(state).moved_in_frame == PlayerMovedInFrame(false),
        final(state).no_action == PlayerNoAction(false),
        final(state).actors@ == old(state).actors@,
        final(state).map == old(state).map,
        final(state).turn_order == old(state).turn_order,
        final(state).blocked.0 == old(state).blocked.0,
        final(state).combat_tiles.0 == old(state).combat_tiles.0,
        final(state).events == old(state).events,
        final(state).player_map == old(state).player_map,
        final(state).input == old(state).input,
{
    state.moved_in_frame.0 = false;
    state.no_action.0 = false;
}

/// The state relation `next_turn` establishes.
pub open spec fn next_turn_rel(pre: GameState, post: GameState) -> bool {
    &&& pre.events.finished_turn@.len() > 0 ==> post.turn_order.turn_order@
            == rotate1(pre.turn_order.turn_order@)
    &&& pre.events.finished_turn@.len() == 0 ==> post.turn_order == pre.turn_order
    &&& post.actors@ == pre.actors@
    &&& post.map == pre.map
    &&& post.blocked.0 == pre.blocked.0
    &&& post.combat_tiles.0 == pre.combat_tiles.0
    &&& post.events == pre.events
    &&& post.player_map == pre.player_map
    &&& post.input == pre.input
    &&& post.moved_in_frame == pre.moved_in_frame
    &&& post.no_action == pre.no_action
}

/// Rotate the turn order once somebody finished a turn this cycle.
pub fn next_turn(state: &mut GameState)
    requires
        old(state).wf(),
    ensures
        final(state).wf(),
        next_turn_rel(*old(state), *final(state)),
{
    if state.events.finished_turn.len() > 0 {
        state.turn_order.end_turn();
    }
}

/// The state relation `drain_turn_events` establishes.
pub open spec fn drain_turn_events_rel(pre: GameState, post: GameState) -> bool {
    &&& post.events.finished_turn@.len() == 0
    &&& post.events.moved@.len() == 0
    &&& post.events.melee@.len() == 0
    &&& post.events.suffers@.len() == 0
    &&& post.events.dies@.len() == 0
    &&& post.events.map_changed@.len() == 0
    &&& post.events.visibility_changed@.len() == 0
    &&& post.actors@ == pre.actors@
    &&& post.map == pre.map
    &&& post.turn_order == pre.turn_order
    &&& post.blocked.0 == pre.blocked.0
    &&& post.combat_tiles.0 == pre.combat_tiles.0
    &&& post.player_map == pre.player_map
    &&& post.input == pre.input
    &&& post.moved_in_frame == pre.moved_in_frame
    &&& post.no_action == pre.no_action
}

/// Drop every event: they never outlive the cycle that produced them.
pub fn drain_turn_events(state: &mut GameState)
    requires
        old(state).wf(),
    ensures
        final(state).wf(),
        drain_turn_events_rel(*old(state), *final(state)),
{
    state.events.clear();
}

/// Actors left after despawning everything named in the death events, in
/// order.
pub open spec fn remove_actor(actors: Seq<Actor>, id: EntityId) -> Seq<Actor> {
    if find_idx(actors, id) >= 0 {
        actors.remove(find_idx(actors, id))
    } else {
        actors
    }
}

pub open spec fn despawn_all(actors: Seq<Actor>, dies: Seq<EntityDies>) -> Seq<Actor>
    decreases dies.len(),
{
    if dies.len() == 0 {
        actors
    } else {
        remove_actor(despawn_all(actors, dies.drop_last()), dies.last().entity)
    }
}

/// The state relation `death_system` establishes.
pub open spec fn death_system_rel(pre: GameState, post: GameState) -> bool {
    &&& post.actors@ == despawn_all(pre.actors@, pre.events.dies@)
    &&& post.map == pre.map
    &&& post.turn_order == pre.turn_order
    &&& post.blocked.0 == pre.blocked.0
    &&& post.combat_tiles.0 == pre.combat_tiles.0
    &&& post.events == pre.events
    &&& post.player_map == pre.player_map
    &&& post.input == pre.input
    &&& post.moved_in_frame == pre.moved_in_frame
    &&& post.no_action == pre.no_action
}

/// Despawn every actor that died this cycle.
pub fn death_system(state: &mut GameState)
    requires
        old(state).wf(),
    ensures
        final(state).wf(),
        death_system_rel(*old(state), *final(state)),
    {
    let n = state.events.dies.len();
    let mut i: usize = 0;
    while i < n
        invariant
            n == state.events.dies@.len(),
            i <= n,
            state.events == old(state).events,
            state.actors@ == despawn_all(
                old(state).actors@,
                old(state).events.dies@.subrange(0, i as int),
            ),
            forall|a: int| 0 <= a < state.actors@.len() ==> actor_ok(#[trigger] state.actors@[a]),
            forall|a: int, b: int|
                0 <= a < b < state.actors@.len() ==> (#[trigger] state.actors@[a]).id
                    != (#[trigger] state.actors@[b]).id,
            state.actors@.len() <= old(state).actors@.len(),
            state.map == old(state).map,
            state.turn_order == old(state).turn_order,
            state.blocked.0 == old(state).blocked.0,
            state.combat_tiles.0 == old(state).combat_tiles.0,
            state.player_map == old(state).player_map,
            state.input == old(state).input,
            state.moved_in_frame == old(state).moved_in_frame,
            state.no_action == old(state).no_action,
            old(state).wf(),
        decreases n - i,
    {
        let dead = state.events.dies[i].entity;
        let ghost pre = state.actors@;
        match find_actor_idx(&state.actors, dead) {
            Some(idx) => {
                state.actors.remove(idx);
                proof {
                    assert forall|a: int, b: int|
                        0 <= a < b < state.actors@.len() implies (#[trigger] state.actors@[a]).id
                        != (#[trigger] state.actors@[b]).id by {
                        let a2 = if a < idx {
                            a
                        } else {
                            a + 1
                        };
                        let b2 = if b < idx {
                            b
                        } else {
                            b + 1
                        };
                        assert(state.actors@[a] == pre[a2] && state.actors@[b] == pre[b2]);
                    }
                    assert forall|a: int|
                        0 <= a < state.actors@.len() implies actor_ok(
                        #[trigger] state.actors@[a],
                    ) by {
                        let a2 = if a < idx {
                            a
                        } else {
                            a + 1
                        };
                        assert(state.actors@[a] == pre[a2]);
                    }
                }
            },
            None => {},
        }
        proof {
            let sub = old(state).events.dies@.subrange(0, i + 1);
            assert(sub.drop_last() =~= old(state).events.dies@.subrange(0, i as int));
            assert(sub.last() == old(state).events.dies@[i as int]);
            assert(state.actors@ == remove_actor(pre, dead));
        }
        i += 1;
    }
    proof {
        assert(old(state).events.dies@.subrange(0, n as int) =~= old(state).events.dies@);
    }
}

/// The turn queue left after removing every dead actor.
pub open spec fn queue_without_dead(q: Seq<EntityId>, dies: Seq<EntityDies>) -> Seq<EntityId>
    decreases dies.len(),
{
    if dies.len() == 0 {
        q
    } else {
        remove_id(queue_without_dead(q, dies.drop_last()), dies.last().entity)
    }
}

pub open spec fn first_id_idx(q: Seq<EntityId>, id: EntityId) -> int
    decreases q.len(),
{
    if q.len() == 0 {
        -1
    } else if q[0] == id {
        0
    } else {
        let r = first_id_idx(q.subrange(1, q.len() as int), id);
        if r == -1 {
            -1
        } else {
            r + 1
        }
    }
}

pub proof fn lemma_first_id_idx_char(q: Seq<EntityId>, id: EntityId)
    ensures
        first_id_idx(q, id) == -1 ==> !q.contains(id),
        first_id_idx(q, id) != -1 ==> 0 <= first_id_idx(q, id) < q.len() && q[first_id_idx(q, id)]
            == id,
    decreases q.len(),
{
    if q.len() == 0 {
    } else if q[0] == id {
    } else {
        let rest = q.subrange(1, q.len() as int);
        lemma_first_id_idx_char(rest, id);
        if first_id_idx(q, id) == -1 && q.contains(id) {
            let j = choose|j: int| 0 <= j < q.len() && q[j] == id;
            assert(rest[j - 1] == id);
        }
    }
}

pub open spec fn remove_id(q: Seq<EntityId>, id: EntityId) -> Seq<EntityId> {
    if first_id_idx(q, id) >= 0 {
        q.remove(first_id_idx(q, id))
    } else {
        q
    }
}

/// The state relation `remove_dead_from_maps` establishes.
pub open spec fn remove_dead_from_maps_rel(pre: GameState, post: GameState) -> bool {
    &&& forall|f: EntityId|
            (exists|k: int|
                0 <= k < pre.events.dies@.len() && (#[trigger] pre.events.dies@[k]).entity == f) ==> !post.turn_order.turn_order@.contains(
                f,
            )
    &&& post.turn_order.turn_order@ == queue_without_dead(
            pre.turn_order.turn_order@,
            pre.events.dies@,
        )
    &&& forall|q: WorldPos, f: EntityId|
            #[trigger] post.blocked.0.occ_has(q, f) == (pre.blocked.0.occ_has(q, f)
                && !(exists|k: int|
                0 <= k < pre.events.dies@.len() && (#[trigger] pre.events.dies@[k]).entity == f))
    &&& forall|q: WorldPos, f: EntityId|
            #[trigger] post.combat_tiles.0.occ_has(q, f) == (pre.combat_tiles.0.occ_has(q, f) && !(exists|k: int|
                0 <= k < pre.events.dies@.len() && (#[trigger] pre.events.dies@[k]).entity == f))
    &&& post.actors@ == pre.actors@
    &&& post.map == pre.map
    &&& post.events == pre.events
    &&& post.player_map == pre.player_map
    &&& post.input == pre.input
    &&& post.moved_in_frame == pre.moved_in_frame
    &&& post.no_action == pre.no_action
}

/// Remove every dead actor from the turn order and from both occupancy
/// indexes.
pub fn remove_dead_from_maps(state: &mut GameState)
    requires
        old(state).wf(),
    ensures
        final(state).wf(),
        remove_dead_from_maps_rel(*old(state), *final(state)),
    {
    let n = state.events.dies.len();
    let mut i: usize = 0;
    while i < n
        invariant
            n == state.events.dies@.len(),
            i <= n,
            state.events == old(state).events,
            state.turn_order.wf(),
            state.blocked.0.wf(),
            state.combat_tiles.0.wf(),
            forall|f: EntityId|
                (exists|k: int|
                    0 <= k < i && (#[trigger] old(state).events.dies@[k]).entity == f) ==> !state.turn_order.turn_order@.contains(
                    f,
                ),
            state.turn_order.turn_order@ == queue_without_dead(
                old(state).turn_order.turn_order@,
                old(state).events.dies@.subrange(0, i as int),
            ),
            forall|q: WorldPos, f: EntityId|
                #[trigger] state.blocked.0.occ_has(q, f) == (old(state).blocked.0.occ_has(q, f)
                    && !(exists|k: int|
                    0 <= k < i && (#[trigger] old(state).events.dies@[k]).entity == f)),
            forall|q: WorldPos, f: EntityId|
                #[trigger] state.combat_tiles.0.occ_has(q, f) == (old(
                    state,
                ).combat_tiles.0.occ_has(q, f) && !(exists|k: int|
                    0 <= k < i && (#[trigger] old(state).events.dies@[k]).entity == f)),
            state.actors@ == old(state).actors@,
            state.map == old(state).map,
            state.player_map == old(state).player_map,
            state.input == old(state).input,
            state.moved_in_frame == old(state).moved_in_frame,
            state.no_action == old(state).no_action,
            old(state).wf(),
        decreases n - i,
    {
        let dead = state.events.dies[i].entity;
        let ghost q_pre = state.turn_order.turn_order@;
        state.turn_order.remove_from_turn_order(dead);
        proof {
            lemma_first_id_idx_char(q_pre, dead);
            let fi = first_id_idx(q_pre, dead);
            if fi == -1 {
                assert(state.turn_order.turn_order@ == q_pre);
            } else {
                assert(q_pre[fi] == dead);
                assert(state.turn_order.turn_order@ == q_pre.remove(fi));
            }
            assert(state.turn_order.turn_order@ == remove_id(q_pre, dead));
            assert forall|f: EntityId| #[trigger] state.turn_order.turn_order@.contains(f) implies
                q_pre.contains(f) by {
                let qf = state.turn_order.turn_order@;
                let j = choose|j: int| 0 <= j < qf.len() && qf[j] == f;
                if fi >= 0 {
                    if j < fi {
                        assert(q_pre[j] == f);
                    } else {
                        assert(q_pre[j + 1] == f);
                    }
                }
            }
            let sub = old(state).events.dies@.subrange(0, i + 1);
            assert(sub.drop_last() =~= old(state).events.dies@.subrange(0, i as int));
            assert(sub.last() == old(state).events.dies@[i as int]);
            assert(state.turn_order.turn_order@ == queue_without_dead(
                old(state).turn_order.turn_order@,
                sub,
            ));
        }
        state.blocked.0.remove_entity_anywhere(dead);
        state.combat_tiles.0.remove_entity_anywhere(dead);
        i += 1;
    }
    proof {
        assert(old(state).events.dies@.subrange(0, n as int) =~= old(state).events.dies@);
    }
}

/// The destination tile implied by the player's directional input.
pub open spec fn dest_from_input(inp: PlayerInputState, wp: WorldPos) -> WorldPos {
    WorldPos {
        x: (wp.x - (if inp.left_pressed {
            1int
        } else {
            0int
        }) + (if inp.right_pressed {
            1int
        } else {
            0int
        })) as i32,
        y: (wp.y - (if inp.down_pressed {
            1int
        } else {
            0int
        }) + (if inp.up_pressed {
            1int
        } else {
            0int
        })) as i32,
    }
}

/// The state relation `handle_input` establishes.
pub open spec fn handle_input_rel(pre: GameState, post: GameState) -> bool {
    &&& post.map == pre.map
    &&& post.turn_order == pre.turn_order
    &&& post.blocked.0 == pre.blocked.0
    &&& post.combat_tiles.0 == pre.combat_tiles.0
    &&& post.input == pre.input
    &&& post.events.suffers@ == pre.events.suffers@
    &&& post.events.dies@ == pre.events.dies@
    &&& post.events.map_changed@ == pre.events.map_changed@
    &&& post.events.visibility_changed@ == pre.events.visibility_changed@
    &&& ({
            let q = pre.turn_order.turn_order@;
            let acts = pre.actors@;
            if q.len() == 0 || find_idx(acts, q[0]) == -1 || !acts[find_idx(acts, q[0])].is_player {
                // nobody's turn, or not the player's: nothing happens
                &&& post.actors@ == acts
                &&& post.events == pre.events
                &&& post.player_map == pre.player_map
                &&& post.moved_in_frame == pre.moved_in_frame
                &&& post.no_action == pre.no_action
            } else if pre.moved_in_frame.0 {
                // already ran this frame: report a no-action outcome
                &&& post.actors@ == acts
                &&& post.events == pre.events
                &&& post.player_map == pre.player_map
                &&& post.moved_in_frame == pre.moved_in_frame
                &&& post.no_action == PlayerNoAction(true)
            } else {
                let h = q[0];
                let fi = find_idx(acts, h);
                let wp = acts[fi].pos;
                let dst = dest_from_input(pre.input, wp);
                &&& post.moved_in_frame == PlayerMovedInFrame(true)
                &&& if pre.input.pass_pressed {
                    &&& post.actors@ == acts
                    &&& post.events.finished_turn@ == pre.events.finished_turn@.push(EntityFinishedTurn { entity: h })
                    &&& post.events.moved@ == pre.events.moved@
                    &&& post.events.melee@ == pre.events.melee@
                    &&& post.player_map == pre.player_map
                    &&& post.no_action == pre.no_action
                } else if dst == wp {
                    &&& post.actors@ == acts
                    &&& post.events == pre.events
                    &&& post.player_map == pre.player_map
                    &&& post.no_action == PlayerNoAction(true)
                } else if pre.combat_tiles.0.occupants(dst).len() > 0 {
                    &&& post.actors@ == acts
                    &&& post.events.finished_turn@ == pre.events.finished_turn@.push(EntityFinishedTurn { entity: h })
                    &&& post.events.melee@ == pre.events.melee@.push(
                        EntityMeleeAttacks {
                            attacker: h,
                            defender: pre.combat_tiles.0.occupants(dst)[0],
                        },
                    )
                    &&& post.events.moved@ == pre.events.moved@
                    &&& post.player_map == pre.player_map
                    &&& post.no_action == pre.no_action
                } else if pre.map.passable_spec(dst) && pre.blocked.0.occupants(
                    dst,
                ).len() == 0 {
                    &&& post.actors@.len() == acts.len()
                    &&& post.actors@[fi].pos == dst
                    &&& post.actors@[fi].id == acts[fi].id
                    &&& post.actors@[fi].is_player == acts[fi].is_player
                    &&& (acts[fi].viewshed matches Some(vs) ==> post.actors@[fi].viewshed
                        matches Some(vs2) && vs2.dirty && vs2.range == vs.range
                        && vs2.visible_tiles == vs.visible_tiles)
                    &&& forall|j: int| 0 <= j < acts.len() && j != fi ==> post.actors@[j] == acts[j]
                    &&& post.events.finished_turn@ == pre.events.finished_turn@.push(EntityFinishedTurn { entity: h })
                    &&& post.events.moved@ == pre.events.moved@.push(
                        EntityMovedEvent { entity: h, old_pos: wp, new_pos: dst },
                    )
                    &&& post.events.melee@ == pre.events.melee@
                    &&& dijkstra_post(
                        pre.map,
                        seq![dst],
                        Seq::empty(),
                        post.player_map.0@,
                    )
                    &&& post.no_action == pre.no_action
                } else {
                    &&& post.actors@ == acts
                    &&& post.events == pre.events
                    &&& post.player_map == pre.player_map
                    &&& post.no_action == PlayerNoAction(true)
                }
            }
        })
}

/// Resolve the player's intent for this cycle, provided the player holds the
/// turn: pass ends the turn; stepping into a combat-capable occupant ends
/// the turn and initiates a melee attack without moving; stepping onto a
/// free passable tile ends the turn, moves the player, marks its viewshed
/// dirty, and recomputes the distance field from the new tile; anything
/// else is a no-action outcome. The second run in a single frame is also a
/// no-action outcome.
pub fn handle_input(state: &mut GameState)
    requires
        old(state).wf(),
        old(state).map.populated@.len() + 1 < 0x7fff_0000,
    ensures
        final(state).wf(),
        handle_input_rel(*old(state), *final(state)),
{
    let holder = match state.turn_order.current_holder() {
        Some(e) => e,
        None => {
            return ;
        },
    };
    let idx = match find_actor_idx(&state.actors, holder) {
        Some(i) => i,
        None => {
            return ;
        },
    };
    if !state.actors[idx].is_player {
        return ;
    }
    if state.moved_in_frame.0 {
        state.no_action.0 = true;
        return ;
    }
    state.moved_in_frame.0 = true;

    let wp = state.actors[idx].pos;
    proof {
        assert(actor_ok(old(state).actors@[idx as int]));
    }
    let mut new_wp = wp;
    if state.input.left_pressed {
        new_wp.x = new_wp.x - 1;
    }
    if state.input.right_pressed {
        new_wp.x = new_wp.x + 1;
    }
    if state.input.up_pressed {
        new_wp.y = new_wp.y + 1;
    }
    if state.input.down_pressed {
        new_wp.y = new_wp.y - 1;
    }
    proof {
        assert(new_wp == dest_from_input(old(state).input, wp));
    }

    if state.input.pass_pressed {
        state.events.finished_turn.push(EntityFinishedTurn { entity: holder });
    } else if !(new_wp.x == wp.x && new_wp.y == wp.y) {
        match state.combat_tiles.0.get_any(new_wp) {
            Some(defender) => {
                state.events.finished_turn.push(EntityFinishedTurn { entity: holder });
                state.events.melee.push(
                    EntityMeleeAttacks { attacker: holder, defender },
                );
                proof {
                    assert(old(state).combat_tiles.0.occ_has(new_wp, defender)
                        && state.events.melee@ == old(state).events.melee@.push(
                        EntityMeleeAttacks { attacker: holder, defender },
                    ));
                }
            },
            None => {
                if can_pass(new_wp, &state.map, &state.blocked) {
                    state.events.finished_turn.push(EntityFinishedTurn { entity: holder });
                    state.events.moved.push(
                        EntityMovedEvent { entity: holder, old_pos: wp, new_pos: new_wp },
                    );
                    let a = &mut state.actors[idx];
                    a.pos = new_wp;
                    match &mut a.viewshed {
                        Some(vs) => {
                            vs.dirty = true;
                        },
                        None => {},
                    }
                    proof {
                        lemma_passable_pos_ok(old(state).map, new_wp);
                    }
                    let mut dests: Vec<WorldPos> = Vec::new();
                    dests.push(new_wp);
                    let none_blocked: Vec<WorldPos> = Vec::new();
                    let new_map = distance_dijkstra_map(&state.map, &dests, &none_blocked);
                    proof {
                        assert(dests@ =~= seq![new_wp]);
                        assert(none_blocked@ =~= Seq::<WorldPos>::empty());
                    }
                    state.player_map.0 = new_map;
                } else {
                    state.no_action.0 = true;
                }
            },
        }
    } else {
        state.no_action.0 = true;
    }
}

/// First index of a player actor, or -1 when there is none.
pub open spec fn first_player_idx(actors: Seq<Actor>) -> int
    decreases actors.len(),
{
    if actors.len() == 0 {
        -1
    } else if actors[0].is_player {
        0
    } else {
        let r = first_player_idx(actors.subrange(1, actors.len() as int));
        if r == -1 {
            -1
        } else {
            r + 1
        }
    }
}

pub proof fn lemma_first_player_char(actors: Seq<Actor>)
    ensures
        first_player_idx(actors) == -1 ==> forall|j: int|
            0 <= j < actors.len() ==> !(#[trigger] actors[j]).is_player,
        first_player_idx(actors) != -1 ==> 0 <= first_player_idx(actors) < actors.len()
            && actors[first_player_idx(actors)].is_player && forall|j: int|
            0 <= j < first_player_idx(actors) ==> !(#[trigger] actors[j]).is_player,
    decreases actors.len(),
{
    if actors.len() == 0 {
    } else if actors[0].is_player {
    } else {
        let rest = actors.subrange(1, actors.len() as int);
        lemma_first_player_char(rest);
        assert forall|j: int| 1 <= j < actors.len() implies actors[j] == rest[j - 1] by {}
    }
}

fn find_player_idx(actors: &Vec<Actor>) -> (r: Option<usize>)
    ensures
        r matches Some(i) ==> i < actors@.len() && first_player_idx(actors@) == i as int,
        r is None ==> first_player_idx(actors@) == -1,
{
    let n = actors.len();
    let mut i: usize = 0;
    while i < n
        invariant
            n == actors@.len(),
            i <= n,
            forall|j: int| 0 <= j < i ==> !(#[trigger] actors@[j]).is_player,
        decreases n - i,
    {
        if actors[i].is_player {
            proof {
                lemma_first_player_char(actors@);
            }
            return Some(i);
        }
        i += 1;
    }
    proof {
        lemma_first_player_char(actors@);
    }
    None
}

/// A distance-field value with the "infinite" sentinel for absent tiles.
pub open spec fn dval(d: Map<u64, i32>, p: WorldPos) -> int {
    if dm_contains(d, p) {
        dm_at(d, p)
    } else {
        i32::MAX as int
    }
}

/// Greedy descent over the candidate steps from index `k` on: take each
/// unblocked candidate whose field value strictly improves on the best so
/// far, ties and non-improvements losing to the earlier candidate.
pub open spec fn best_step_rec(
    adj: Seq<WorldPos>,
    blocked: CacheMap,
    d: Map<u64, i32>,
    k: int,
    cur: WorldPos,
    curd: int,
) -> (WorldPos, int)
    decreases adj.len() - k,
{
    if k < 0 || k >= adj.len() {
        (cur, curd)
    } else {
        let cand = adj[k];
        if blocked.occupants(cand).len() == 0 && dval(d, cand) < curd {
            best_step_rec(adj, blocked, d, k + 1, cand, dval(d, cand))
        } else {
            best_step_rec(adj, blocked, d, k + 1, cur, curd)
        }
    }
}

pub proof fn lemma_best_step_source(
    adj: Seq<WorldPos>,
    blocked: CacheMap,
    d: Map<u64, i32>,
    k: int,
    cur: WorldPos,
    curd: int,
)
    ensures
        best_step_rec(adj, blocked, d, k, cur, curd).0 == cur || adj.contains(
            best_step_rec(adj, blocked, d, k, cur, curd).0,
        ),
    decreases adj.len() - k,
{
    if k < 0 || k >= adj.len() {
    } else {
        let cand = adj[k];
        if blocked.occupants(cand).len() == 0 && dval(d, cand) < curd {
            lemma_best_step_source(adj, blocked, d, k + 1, cand, dval(d, cand));
            assert(adj.contains(cand));
        } else {
            lemma_best_step_source(adj, blocked, d, k + 1, cur, curd);
        }
    }
}

/// The state relation `monster_ai` establishes.
pub open spec fn monster_ai_rel(pre: GameState, post: GameState) -> bool {
    &&& post.map == pre.map
    &&& post.turn_order == pre.turn_order
    &&& post.blocked.0 == pre.blocked.0
    &&& post.combat_tiles.0 == pre.combat_tiles.0
    &&& post.player_map == pre.player_map
    &&& post.input == pre.input
    &&& post.moved_in_frame == pre.moved_in_frame
    &&& post.no_action == pre.no_action
    &&& post.events.suffers@ == pre.events.suffers@
    &&& post.events.dies@ == pre.events.dies@
    &&& post.events.map_changed@ == pre.events.map_changed@
    &&& post.events.visibility_changed@ == pre.events.visibility_changed@
    &&& ({
            let q = pre.turn_order.turn_order@;
            let acts = pre.actors@;
            if q.len() == 0 || find_idx(acts, q[0]) == -1 || !(acts[find_idx(
                acts,
                q[0],
            )].monster_ai && acts[find_idx(acts, q[0])].viewshed is Some) {
                &&& post.actors@ == acts
                &&& post.events == pre.events
            } else {
                let h = q[0];
                let mi = find_idx(acts, h);
                let wp = acts[mi].pos;
                let pi = first_player_idx(acts);
                &&& post.events.finished_turn@ == pre.events.finished_turn@.push(
                    EntityFinishedTurn { entity: h },
                )
                &&& if pi == -1 {
                    &&& post.actors@ == acts
                    &&& post.events.melee@ == pre.events.melee@
                    &&& post.events.moved@ == pre.events.moved@
                } else {
                    let ppos = acts[pi].pos;
                    let vs = acts[mi].viewshed->Some_0;
                    if !vs.visible_tiles@.contains(ppos) {
                        &&& post.actors@ == acts
                        &&& post.events.melee@ == pre.events.melee@
                        &&& post.events.moved@ == pre.events.moved@
                    } else if abs_spec(wp.x - ppos.x) + abs_spec(wp.y - ppos.y) <= 1 {
                        &&& post.actors@ == acts
                        &&& post.events.melee@ == pre.events.melee@.push(
                            EntityMeleeAttacks { attacker: h, defender: acts[pi].id },
                        )
                        &&& post.events.moved@ == pre.events.moved@
                    } else {
                        let best = best_step_rec(
                            pre.map.adjacent_spec(wp),
                            pre.blocked.0,
                            pre.player_map.0@,
                            0,
                            wp,
                            dval(pre.player_map.0@, wp),
                        ).0;
                        &&& post.events.melee@ == pre.events.melee@
                        &&& if best == wp {
                            &&& post.actors@ == acts
                            &&& post.events.moved@ == pre.events.moved@
                        } else {
                            &&& post.events.moved@ == pre.events.moved@.push(
                                EntityMovedEvent { entity: h, old_pos: wp, new_pos: best },
                            )
                            &&& post.actors@.len() == acts.len()
                            &&& post.actors@[mi].pos == best
                            &&& post.actors@[mi].id == acts[mi].id
                            &&& (post.actors@[mi].viewshed matches Some(vs2) && vs2.dirty
                                && vs2.range == vs.range && vs2.visible_tiles == vs.visible_tiles)
                            &&& forall|j: int|
                                0 <= j < acts.len() && j != mi ==> post.actors@[j]
                                    == acts[j]
                        }
                    }
                }
            }
        })
}

/// Decide and take the turn of the monster at the front of the turn order:
/// the monster always finishes its turn; with the player inside its own
/// viewshed it attacks when orthogonally adjacent (Manhattan distance at
/// most one), and otherwise steps to the unblocked adjacent tile with the
/// lowest distance-field value, provided that value strictly improves on
/// its own tile's value (the earlier candidate wins ties); a monster that
/// cannot see the player does nothing further.
pub fn monster_ai(state: &mut GameState)
    requires
        old(state).wf(),
    ensures
        final(state).wf(),
        monster_ai_rel(*old(state), *final(state)),
{
    let holder = match state.turn_order.current_holder() {
        Some(e) => e,
        None => {
            return ;
        },
    };
    let mi = match find_actor_idx(&state.actors, holder) {
        Some(i) => i,
        None => {
            return ;
        },
    };
    if !(state.actors[mi].monster_ai && state.actors[mi].viewshed.is_some()) {
        return ;
    }
    // monsters always finish their turn so the game moves on
    state.events.finished_turn.push(EntityFinishedTurn { entity: holder });

    let pi = match find_player_idx(&state.actors) {
        Some(i) => i,
        None => {
            return ;
        },
    };
    let player_id = state.actors[pi].id;
    let player_pos = state.actors[pi].pos;
    let wp = state.actors[mi].pos;
    proof {
        assert(actor_ok(old(state).actors@[mi as int]));
        assert(actor_ok(old(state).actors@[pi as int]));
    }

    let sees = match &state.actors[mi].viewshed {
        Some(vs) => vec_has_wp(&vs.visible_tiles, player_pos),
        None => false,
    };
    if !sees {
        // the player is out of sight: no chasing across the whole map
        return ;
    }

    if wp.dist(player_pos) <= 1 {
        state.events.melee.push(EntityMeleeAttacks { attacker: holder, defender: player_id });
        return ;
    }

    let curr_dist = distance_at(&state.player_map.0, wp);
    let adjacent = state.map.adjacent(wp);
    let nadj = adjacent.len();
    let mut new_wp = wp;
    let mut best_dest = curr_dist;
    let mut ai: usize = 0;
    while ai < nadj
        invariant
            nadj == adjacent@.len(),
            ai <= nadj,
            best_step_rec(
                adjacent@,
                state.blocked.0,
                state.player_map.0@,
                ai as int,
                new_wp,
                best_dest as int,
            ) == best_step_rec(
                adjacent@,
                state.blocked.0,
                state.player_map.0@,
                0,
                wp,
                dval(state.player_map.0@, wp),
            ),
            best_dest as int == dval(state.player_map.0@, new_wp) || (new_wp == wp && best_dest
                as int == dval(state.player_map.0@, wp)),
        decreases nadj - ai,
    {
        let adj_tile = adjacent[ai];
        if !state.blocked.0.has_any(adj_tile) {
            let adj_dist = distance_at(&state.player_map.0, adj_tile);
            if adj_dist < best_dest {
                best_dest = adj_dist;
                new_wp = adj_tile;
            }
        }
        ai += 1;
    }

    if !(new_wp.x == wp.x && new_wp.y == wp.y) {
        proof {
            lemma_best_step_source(
                adjacent@,
                state.blocked.0,
                state.player_map.0@,
                0,
                wp,
                dval(state.player_map.0@, wp),
            );
            assert(adjacent@.contains(new_wp));
            assert(state.map.passable_spec(new_wp));
            lemma_passable_pos_ok(state.map, new_wp);
        }
        state.events.moved.push(
            EntityMovedEvent { entity: holder, old_pos: wp, new_pos: new_wp },
        );
        let a = &mut state.actors[mi];
        a.pos = new_wp;
        match &mut a.viewshed {
            Some(vs) => {
                vs.dirty = true;
            },
            None => {},
        }
    }
}

fn vec_has_wp(v: &Vec<WorldPos>, x: WorldPos) -> (r: bool)
    ensures
        r == v@.contains(x),
{
    let n = v.len();
    let mut i: usize = 0;
    while i < n
        invariant
            n == v@.len(),
            i <= n,
            forall|j: int| 0 <= j < i ==> v@[j] != x,
        decreases n - i,
    {
        if v[i] == x {
            return true;
        }
        i += 1;
    }
    false
}

/// The melee damage an attack inflicts: attacker power less defender
/// defense, never negative, clamped into the machine range.
pub open spec fn damage_value(att: CombatStats, def: CombatStats) -> int {
    let d = att.power - def.defense;
    if d < 0 {
        0
    } else if d > i32::MAX {
        i32::MAX as int
    } else {
        d
    }
}

/// The damage events produced by a sequence of melee attacks, in order;
/// attacks whose attacker or defender lacks combat stats are skipped.
pub open spec fn combat_out(actors: Seq<Actor>, melee: Seq<EntityMeleeAttacks>) -> Seq<
    EntitySuffersDamage,
>
    decreases melee.len(),
{
    if melee.len() == 0 {
        Seq::empty()
    } else {
        let prev = combat_out(actors, melee.drop_last());
        let ev = melee.last();
        let ai = find_idx(actors, ev.attacker);
        let di = find_idx(actors, ev.defender);
        if ai >= 0 && di >= 0 && actors[ai].stats is Some && actors[di].stats is Some {
            prev.push(
                EntitySuffersDamage {
                    entity: ev.defender,
                    damage: damage_value(
                        actors[ai].stats->Some_0,
                        actors[di].stats->Some_0,
                    ) as i32,
                },
            )
        } else {
            prev
        }
    }
}

/// The state relation `process_combat_event` establishes.
pub open spec fn process_combat_event_rel(pre: GameState, post: GameState) -> bool {
    &&& post.events.suffers@ == pre.events.suffers@ + combat_out(
            pre.actors@,
            pre.events.melee@,
        )
    &&& post.events.finished_turn@ == pre.events.finished_turn@
    &&& post.events.moved@ == pre.events.moved@
    &&& post.events.melee@ == pre.events.melee@
    &&& post.events.dies@ == pre.events.dies@
    &&& post.events.map_changed@ == pre.events.map_changed@
    &&& post.events.visibility_changed@ == pre.events.visibility_changed@
    &&& post.actors@ == pre.actors@
    &&& post.map == pre.map
    &&& post.turn_order == pre.turn_order
    &&& post.blocked.0 == pre.blocked.0
    &&& post.combat_tiles.0 == pre.combat_tiles.0
    &&& post.player_map == pre.player_map
    &&& post.input == pre.input
    &&& post.moved_in_frame == pre.moved_in_frame
    &&& post.no_action == pre.no_action
}

/// Resolve every melee attack of this cycle into a damage event. A damage
/// event is always emitted for a resolvable attack, even when the damage
/// comes to zero.
pub fn process_combat_event(state: &mut GameState)
    requires
        old(state).wf(),
    ensures
        final(state).wf(),
        process_combat_event_rel(*old(state), *final(state)),
    {
    let n = state.events.melee.len();
    let mut i: usize = 0;
    while i < n
        invariant
            n == state.events.melee@.len(),
            i <= n,
            state.events.melee@ == old(state).events.melee@,
            state.events.suffers@ == old(state).events.suffers@ + combat_out(
                old(state).actors@,
                old(state).events.melee@.subrange(0, i as int),
            ),
            state.events.finished_turn@ == old(state).events.finished_turn@,
            state.events.moved@ == old(state).events.moved@,
            state.events.dies@ == old(state).events.dies@,
            state.events.map_changed@ == old(state).events.map_changed@,
            state.events.visibility_changed@ == old(state).events.visibility_changed@,
            state.actors@ == old(state).actors@,
            state.map == old(state).map,
            state.turn_order == old(state).turn_order,
            state.blocked.0 == old(state).blocked.0,
            state.combat_tiles.0 == old(state).combat_tiles.0,
            state.player_map == old(state).player_map,
            state.input == old(state).input,
            state.moved_in_frame == old(state).moved_in_frame,
            state.no_action == old(state).no_action,
            old(state).wf(),
        decreases n - i,
    {
        let attacker = state.events.melee[i].attacker;
        let defender = state.events.melee[i].defender;
        let mut att_stats: Option<CombatStats> = None;
        let mut def_stats: Option<CombatStats> = None;
        match find_actor_idx(&state.actors, attacker) {
            Some(ai2) => {
                att_stats = state.actors[ai2].stats;
            },
            None => {},
        }
        match find_actor_idx(&state.actors, defender) {
            Some(di2) => {
                def_stats = state.actors[di2].stats;
            },
            None => {},
        }
        match (att_stats, def_stats) {
            (Some(att), Some(def)) => {
                let d64 = att.power as i64 - def.defense as i64;
                let inflicted: i32 = if d64 < 0 {
                    0
                } else if d64 > i32::MAX as i64 {
                    i32::MAX
                } else {
                    d64 as i32
                };
                state.events.suffers.push(
                    EntitySuffersDamage { entity: defender, damage: inflicted },
                );
            },
            _ => {},
        }
        proof {
            let sub = old(state).events.melee@.subrange(0, i + 1);
            assert(sub.drop_last() =~= old(state).events.melee@.subrange(0, i as int));
            assert(sub.last() == old(state).events.melee@[i as int]);
            assert(state.events.suffers@ =~= old(state).events.suffers@ + combat_out(
                old(state).actors@,
                sub,
            ));
        }
        i += 1;
    }
    proof {
        assert(old(state).events.melee@.subrange(0, n as int) =~= old(state).events.melee@);
    }
}

/// A hit-point total after taking damage, clamped into the machine range.
pub open spec fn clamp_hp(hp: int, dmg: int) -> int {
    let v = hp - dmg;
    if v < i32::MIN {
        i32::MIN as int
    } else if v > i32::MAX {
        i32::MAX as int
    } else {
        v
    }
}

/// One damage event applied to the actor roster.
pub open spec fn damage_step(actors: Seq<Actor>, ev: EntitySuffersDamage) -> Seq<Actor> {
    let i = find_idx(actors, ev.entity);
    if i >= 0 && actors[i].stats is Some {
        actors.update(
            i,
            Actor {
                stats: Some(
                    CombatStats {
                        hp: clamp_hp(actors[i].stats->Some_0.hp as int, ev.damage as int) as i32,
                        ..actors[i].stats->Some_0
                    },
                ),
                ..actors[i]
            },
        )
    } else {
        actors
    }
}

pub open spec fn apply_damage(actors: Seq<Actor>, evs: Seq<EntitySuffersDamage>) -> Seq<Actor>
    decreases evs.len(),
{
    if evs.len() == 0 {
        actors
    } else {
        damage_step(apply_damage(actors, evs.drop_last()), evs.last())
    }
}

/// The death events produced while applying the damage events in order.
pub open spec fn deaths_out(actors: Seq<Actor>, evs: Seq<EntitySuffersDamage>) -> Seq<EntityDies>
    decreases evs.len(),
{
    if evs.len() == 0 {
        Seq::empty()
    } else {
        let pre = apply_damage(actors, evs.drop_last());
        let prev = deaths_out(actors, evs.drop_last());
        let ev = evs.last();
        let i = find_idx(pre, ev.entity);
        if i >= 0 && pre[i].stats is Some && clamp_hp(pre[i].stats->Some_0.hp as int, ev.damage as int)
            <= 0 {
            prev.push(EntityDies { entity: ev.entity })
        } else {
            prev
        }
    }
}

/// The state relation `process_suffers_damage_event` establishes.
pub open spec fn process_suffers_damage_event_rel(pre: GameState, post: GameState) -> bool {
    &&& post.actors@ == apply_damage(pre.actors@, pre.events.suffers@)
    &&& post.events.dies@ == pre.events.dies@ + deaths_out(
            pre.actors@,
            pre.events.suffers@,
        )
    &&& post.events.finished_turn@ == pre.events.finished_turn@
    &&& post.events.moved@ == pre.events.moved@
    &&& post.events.melee@ == pre.events.melee@
    &&& post.events.suffers@ == pre.events.suffers@
    &&& post.events.map_changed@ == pre.events.map_changed@
    &&& post.events.visibility_changed@ == pre.events.visibility_changed@
    &&& post.map == pre.map
    &&& post.turn_order == pre.turn_order
    &&& post.blocked.0 == pre.blocked.0
    &&& post.combat_tiles.0 == pre.combat_tiles.0
    &&& post.player_map == pre.player_map
    &&& post.input == pre.input
    &&& post.moved_in_frame == pre.moved_in_frame
    &&& post.no_action == pre.no_action
}

/// Apply every damage event of this cycle: each decrements the victim's hit
/// points, and a victim at zero or below emits a death event. Actors
/// without combat stats are skipped.
pub fn process_suffers_damage_event(state: &mut GameState)
    requires
        old(state).wf(),
    ensures
        final(state).wf(),
        process_suffers_damage_event_rel(*old(state), *final(state)),
    {
    let n = state.events.suffers.len();
    let mut i: usize = 0;
    while i < n
        invariant
            n == state.events.suffers@.len(),
            i <= n,
            state.events.suffers@ == old(state).events.suffers@,
            state.actors@ == apply_damage(
                old(state).actors@,
                old(state).events.suffers@.subrange(0, i as int),
            ),
            state.events.dies@ == old(state).events.dies@ + deaths_out(
                old(state).actors@,
                old(state).events.suffers@.subrange(0, i as int),
            ),
            forall|a: int| 0 <= a < state.actors@.len() ==> actor_ok(#[trigger] state.actors@[a]),
            forall|a: int, b: int|
                0 <= a < b < state.actors@.len() ==> (#[trigger] state.actors@[a]).id
                    != (#[trigger] state.actors@[b]).id,
            state.actors@.len() == old(state).actors@.len(),
            state.events.finished_turn@ == old(state).events.finished_turn@,
            state.events.moved@ == old(state).events.moved@,
            state.events.melee@ == old(state).events.melee@,
            state.events.map_changed@ == old(state).events.map_changed@,
            state.events.visibility_changed@ == old(state).events.visibility_changed@,
            state.map == old(state).map,
            state.turn_order == old(state).turn_order,
            state.blocked.0 == old(state).blocked.0,
            state.combat_tiles.0 == old(state).combat_tiles.0,
            state.player_map == old(state).player_map,
            state.input == old(state).input,
            state.moved_in_frame == old(state).moved_in_frame,
            state.no_action == old(state).no_action,
            old(state).wf(),
        decreases n - i,
    {
        let entity = state.events.suffers[i].entity;
        let damage = state.events.suffers[i].damage;
        let ghost pre = state.actors@;
        match find_actor_idx(&state.actors, entity) {
            Some(ci) => {
                let has_stats = state.actors[ci].stats.is_some();
                if has_stats {
                    let cs = match state.actors[ci].stats {
                        Some(cs) => cs,
                        None => {
                            proof {
                                assert(false);
                            }
                            CombatStats { max_hp: 0, hp: 0, defense: 0, power: 0 }
                        },
                    };
                    let nh64 = cs.hp as i64 - damage as i64;
                    let nh: i32 = if nh64 < i32::MIN as i64 {
                        i32::MIN
                    } else if nh64 > i32::MAX as i64 {
                        i32::MAX
                    } else {
                        nh64 as i32
                    };
                    let a = &mut state.actors[ci];
                    a.stats = Some(CombatStats { hp: nh, ..cs });
                    if nh <= 0 {
                        state.events.dies.push(EntityDies { entity });
                    }
                    proof {
                        assert(state.actors@ =~= damage_step(
                            pre,
                            old(state).events.suffers@[i as int],
                        ));
                        assert forall|a2: int|
                            0 <= a2 < state.actors@.len() implies actor_ok(
                            #[trigger] state.actors@[a2],
                        ) by {
                            if a2 != ci {
                                assert(state.actors@[a2] == pre[a2]);
                            } else {
                                assert(state.actors@[a2].pos == pre[a2].pos);
                                assert(state.actors@[a2].viewshed == pre[a2].viewshed);
                            }
                        }
                        assert forall|a2: int, b2: int|
                            0 <= a2 < b2 < state.actors@.len() implies (
                        #[trigger] state.actors@[a2]).id != (#[trigger] state.actors@[b2]).id by {
                            assert(state.actors@[a2].id == pre[a2].id);
                            assert(state.actors@[b2].id == pre[b2].id);
                        }
                    }
                } else {
                    proof {
                        assert(state.actors@ =~= damage_step(
                            pre,
                            old(state).events.suffers@[i as int],
                        ));
                    }
                }
            },
            None => {
                proof {
                    assert(state.actors@ =~= damage_step(
                        pre,
                        old(state).events.suffers@[i as int],
                    ));
                }
            },
        }
        proof {
            let sub = old(state).events.suffers@.subrange(0, i + 1);
            assert(sub.drop_last() =~= old(state).events.suffers@.subrange(0, i as int));
            assert(sub.last() == old(state).events.suffers@[i as int]);
            assert(state.events.dies@ =~= old(state).events.dies@ + deaths_out(
                old(state).actors@,
                sub,
            ));
        }
        i += 1;
    }
    proof {
        assert(old(state).events.suffers@.subrange(0, n as int) =~= old(state).events.suffers@);
    }
}

/// Whether an occupancy index holds an actor at a position after replaying
/// the cycle's movement events, in order, for the actors that carry the
/// relevant capability.
pub open spec fn occ_after(
    c: CacheMap,
    moves: Seq<EntityMovedEvent>,
    acts: Seq<Actor>,
    use_blocks: bool,
    q: WorldPos,
    f: EntityId,
) -> bool
    decreases moves.len(),
{
    if moves.len() == 0 {
        c.occ_has(q, f)
    } else {
        let prev = occ_after(c, moves.drop_last(), acts, use_blocks, q, f);
        let ev = moves.last();
        let i = find_idx(acts, ev.entity);
        if i >= 0 && (if use_blocks {
            acts[i].blocks_movement
        } else {
            acts[i].stats is Some
        }) {
            (prev && !(q == ev.old_pos && f == ev.entity)) || (q == ev.new_pos && f == ev.entity)
        } else {
            prev
        }
    }
}

/// The state relation `update_blocked_map` establishes.
pub open spec fn update_blocked_map_rel(pre: GameState, post: GameState) -> bool {
    &&& forall|q: WorldPos, f: EntityId|
            #[trigger] post.blocked.0.occ_has(q, f) == occ_after(
                pre.blocked.0,
                pre.events.moved@,
                pre.actors@,
                true,
                q,
                f,
            )
    &&& post.actors@ == pre.actors@
    &&& post.map == pre.map
    &&& post.turn_order == pre.turn_order
    &&& post.combat_tiles.0 == pre.combat_tiles.0
    &&& post.events == pre.events
    &&& post.player_map == pre.player_map
    &&& post.input == pre.input
    &&& post.moved_in_frame == pre.moved_in_frame
    &&& post.no_action == pre.no_action
}

/// Keep the movement-blocking occupancy index synchronized with this
/// cycle's movement events.
pub fn update_blocked_map(state: &mut GameState)
    requires
        old(state).wf(),
    ensures
        final(state).wf(),
        update_blocked_map_rel(*old(state), *final(state)),
    {
    let n = state.events.moved.len();
    let mut i: usize = 0;
    while i < n
        invariant
            n == state.events.moved@.len(),
            i <= n,
            state.events == old(state).events,
            state.blocked.0.wf(),
            forall|q: WorldPos, f: EntityId|
                #[trigger] state.blocked.0.occ_has(q, f) == occ_after(
                    old(state).blocked.0,
                    old(state).events.moved@.subrange(0, i as int),
                    old(state).actors@,
                    true,
                    q,
                    f,
                ),
            state.actors@ == old(state).actors@,
            state.map == old(state).map,
            state.turn_order == old(state).turn_order,
            state.combat_tiles.0 == old(state).combat_tiles.0,
            state.player_map == old(state).player_map,
            state.input == old(state).input,
            state.moved_in_frame == old(state).moved_in_frame,
            state.no_action == old(state).no_action,
            old(state).wf(),
        decreases n - i,
    {
        let entity = state.events.moved[i].entity;
        let old_pos = state.events.moved[i].old_pos;
        let new_pos = state.events.moved[i].new_pos;
        let mut relevant = false;
        match find_actor_idx(&state.actors, entity) {
            Some(ai2) => {
                relevant = state.actors[ai2].blocks_movement;
            },
            None => {},
        }
        if relevant {
            state.blocked.0.update_entity(old_pos, new_pos, entity);
        }
        proof {
            let sub = old(state).events.moved@.subrange(0, i + 1);
            assert(sub.drop_last() =~= old(state).events.moved@.subrange(0, i as int));
            assert(sub.last() == old(state).events.moved@[i as int]);
        }
        i += 1;
    }
    proof {
        assert(old(state).events.moved@.subrange(0, n as int) =~= old(state).events.moved@);
    }
}

/// The state relation `update_combat_stats_map` establishes.
pub open spec fn update_combat_stats_map_rel(pre: GameState, post: GameState) -> bool {
    &&& forall|q: WorldPos, f: EntityId|
            #[trigger] post.combat_tiles.0.occ_has(q, f) == occ_after(
                pre.combat_tiles.0,
                pre.events.moved@,
                pre.actors@,
                false,
                q,
                f,
            )
    &&& post.actors@ == pre.actors@
    &&& post.map == pre.map
    &&& post.turn_order == pre.turn_order
    &&& post.blocked.0 == pre.blocked.0
    &&& post.events == pre.events
    &&& post.player_map == pre.player_map
    &&& post.input == pre.input
    &&& post.moved_in_frame == pre.moved_in_frame
    &&& post.no_action == pre.no_action
}

/// Keep the combat-capable occupancy index synchronized with this cycle's
/// movement events.
pub fn update_combat_stats_map(state: &mut GameState)
    requires
        old(state).wf(),
    ensures
        final(state).wf(),
        update_combat_stats_map_rel(*old(state), *final(state)),
    {
    let n = state.events.moved.len();
    let mut i: usize = 0;
    while i < n
        invariant
            n == state.events.moved@.len(),
            i <= n,
            state.events == old(state).events,
            state.combat_tiles.0.wf(),
            forall|q: WorldPos, f: EntityId|
                #[trigger] state.combat_tiles.0.occ_has(q, f) == occ_after(
                    old(state).combat_tiles.0,
                    old(state).events.moved@.subrange(0, i as int),
                    old(state).actors@,
                    false,
                    q,
                    f,
                ),
            state.actors@ == old(state).actors@,
            state.map == old(state).map,
            state.turn_order == old(state).turn_order,
            state.blocked.0 == old(state).blocked.0,
            state.player_map == old(state).player_map,
            state.input == old(state).input,
            state.moved_in_frame == old(state).moved_in_frame,
            state.no_action == old(state).no_action,
            old(state).wf(),
        decreases n - i,
    {
        let entity = state.events.moved[i].entity;
        let old_pos = state.events.moved[i].old_pos;
        let new_pos = state.events.moved[i].new_pos;
        let mut relevant = false;
        match find_actor_idx(&state.actors, entity) {
            Some(ai2) => {
                relevant = state.actors[ai2].stats.is_some();
            },
            None => {},
        }
        if relevant {
            state.combat_tiles.0.update_entity(old_pos, new_pos, entity);
        }
        proof {
            let sub = old(state).events.moved@.subrange(0, i + 1);
            assert(sub.drop_last() =~= old(state).events.moved@.subrange(0, i as int));
            assert(sub.last() == old(state).events.moved@[i as int]);
        }
        i += 1;
    }
    proof {
        assert(old(state).events.moved@.subrange(0, n as int) =~= old(state).events.moved@);
    }
}

/// Whether an actor's field of view needs recomputing.
pub open spec fn has_dirty_vs(a: Actor) -> bool {
    a.viewshed is Some && a.viewshed->Some_0.dirty
}

/// How many actors need their field of view recomputed.
pub open spec fn count_dirty(actors: Seq<Actor>) -> int
    decreases actors.len(),
{
    if actors.len() == 0 {
        0
    } else {
        count_dirty(actors.drop_last()) + if has_dirty_vs(actors.last()) {
            1int
        } else {
            0int
        }
    }
}

/// The state relation `compute_viewsheds` establishes.
pub open spec fn compute_viewsheds_rel(pre: GameState, post: GameState) -> bool {
    &&& post.actors@.len() == pre.actors@.len()
    &&& forall|i: int|
            0 <= i < pre.actors@.len() ==> ({
                let a = pre.actors@[i];
                if a.viewshed is Some && a.viewshed->Some_0.dirty {
                    let vs = a.viewshed->Some_0;
                    &&& (#[trigger] post.actors@[i]).viewshed is Some
                    &&& !post.actors@[i].viewshed->Some_0.dirty
                    &&& post.actors@[i].viewshed->Some_0.range == vs.range
                    &&& fov_post(
                        pre.map,
                        a.pos,
                        vs.range as int,
                        post.actors@[i].viewshed->Some_0.visible_tiles@,
                    )
                    &&& post.actors@[i].id == a.id
                    &&& post.actors@[i].pos == a.pos
                    &&& post.actors@[i].is_player == a.is_player
                    &&& post.actors@[i].monster_ai == a.monster_ai
                    &&& post.actors@[i].blocks_movement == a.blocks_movement
                    &&& post.actors@[i].stats == a.stats
                } else {
                    post.actors@[i] == a
                }
            })
    &&& post.events.visibility_changed@.len() == pre.events.visibility_changed@.len() + count_dirty(pre.actors@)
    &&& post.events.finished_turn@ == pre.events.finished_turn@
    &&& post.events.moved@ == pre.events.moved@
    &&& post.events.melee@ == pre.events.melee@
    &&& post.events.suffers@ == pre.events.suffers@
    &&& post.events.dies@ == pre.events.dies@
    &&& post.events.map_changed@ == pre.events.map_changed@
    &&& post.map == pre.map
    &&& post.turn_order == pre.turn_order
    &&& post.blocked.0 == pre.blocked.0
    &&& post.combat_tiles.0 == pre.combat_tiles.0
    &&& post.player_map == pre.player_map
    &&& post.input == pre.input
    &&& post.moved_in_frame == pre.moved_in_frame
    &&& post.no_action == pre.no_action
}

/// Recompute the field of view of every actor whose viewshed is marked
/// dirty, and clear the flag; each recomputation announces itself with a
/// visibility-changed event.
pub fn compute_viewsheds(state: &mut GameState)
    requires
        old(state).wf(),
    ensures
        final(state).wf(),
        compute_viewsheds_rel(*old(state), *final(state)),
    {
    let n = state.actors.len();
    let mut i: usize = 0;
    while i < n
        invariant
            n == state.actors@.len(),
            i <= n,
            state.actors@.len() == old(state).actors@.len(),
            forall|j: int|
                0 <= j < i ==> ({
                    let a = old(state).actors@[j];
                    if a.viewshed is Some && a.viewshed->Some_0.dirty {
                        let vs = a.viewshed->Some_0;
                        &&& (#[trigger] state.actors@[j]).viewshed is Some
                        &&& !state.actors@[j].viewshed->Some_0.dirty
                        &&& state.actors@[j].viewshed->Some_0.range == vs.range
                        &&& fov_post(
                            old(state).map,
                            a.pos,
                            vs.range as int,
                            state.actors@[j].viewshed->Some_0.visible_tiles@,
                        )
                        &&& state.actors@[j].id == a.id
                        &&& state.actors@[j].pos == a.pos
                        &&& state.actors@[j].is_player == a.is_player
                        &&& state.actors@[j].monster_ai == a.monster_ai
                        &&& state.actors@[j].blocks_movement == a.blocks_movement
                        &&& state.actors@[j].stats == a.stats
                    } else {
                        state.actors@[j] == a
                    }
                }),
            forall|j: int| i <= j < n ==> #[trigger] state.actors@[j] == old(state).actors@[j],
            state.events.visibility_changed@.len() == old(
                state,
            ).events.visibility_changed@.len() + count_dirty(
                old(state).actors@.subrange(0, i as int),
            ),
            state.events.finished_turn@ == old(state).events.finished_turn@,
            state.events.moved@ == old(state).events.moved@,
            state.events.melee@ == old(state).events.melee@,
            state.events.suffers@ == old(state).events.suffers@,
            state.events.dies@ == old(state).events.dies@,
            state.events.map_changed@ == old(state).events.map_changed@,
            state.map == old(state).map,
            state.turn_order == old(state).turn_order,
            state.blocked.0 == old(state).blocked.0,
            state.combat_tiles.0 == old(state).combat_tiles.0,
            state.player_map == old(state).player_map,
            state.input == old(state).input,
            state.moved_in_frame == old(state).moved_in_frame,
            state.no_action == old(state).no_action,
            old(state).wf(),
        decreases n - i,
    {
        let mut needs = false;
        let mut range: i32 = 0;
        match &state.actors[i].viewshed {
            Some(vs) => {
                if vs.dirty {
                    needs = true;
                    range = vs.range;
                }
            },
            None => {},
        }
        if needs {
            let pos = state.actors[i].pos;
            proof {
                assert(actor_ok(old(state).actors@[i as int]));
            }
            let tiles = refresh_area(pos, range, &state.map);
            let a = &mut state.actors[i];
            match &mut a.viewshed {
                Some(vs) => {
                    vs.visible_tiles = tiles;
                    vs.dirty = false;
                },
                None => {},
            }
            state.events.visibility_changed.push(VisibilityChangedEvent);
        }
        proof {
            let sub = old(state).actors@.subrange(0, i + 1);
            assert(sub.drop_last() =~= old(state).actors@.subrange(0, i as int));
            assert(sub.last() == old(state).actors@[i as int]);
            assert forall|a2: int|
                0 <= a2 < state.actors@.len() implies actor_ok(#[trigger] state.actors@[a2]) by {
                if a2 != i {
                } else {
                    assert(state.actors@[a2].pos == old(state).actors@[a2].pos);
                }
            }
            assert forall|a2: int, b2: int|
                0 <= a2 < b2 < state.actors@.len() implies (#[trigger] state.actors@[a2]).id
                != (#[trigger] state.actors@[b2]).id by {
                assert(state.actors@[a2].id == old(state).actors@[a2].id);
                assert(state.actors@[b2].id == old(state).actors@[b2].id);
            }
        }
        i += 1;
    }
    proof {
        assert(old(state).actors@.subrange(0, n as int) =~= old(state).actors@);
    }
}

/// The last player actor that has a viewshed, or -1 when there is none;
/// its viewshed is the one that ends up on the map.
pub open spec fn last_player_vs(actors: Seq<Actor>) -> int
    decreases actors.len(),
{
    if actors.len() == 0 {
        -1
    } else if actors.last().is_player && actors.last().viewshed is Some {
        actors.len() - 1
    } else {
        last_player_vs(actors.drop_last())
    }
}

pub proof fn lemma_last_player_char(actors: Seq<Actor>)
    ensures
        last_player_vs(actors) == -1 ==> forall|j: int|
            0 <= j < actors.len() ==> !((#[trigger] actors[j]).is_player && actors[j].viewshed
                is Some),
        last_player_vs(actors) >= 0 ==> last_player_vs(actors) < actors.len()
            && actors[last_player_vs(actors)].is_player && actors[last_player_vs(actors)].viewshed
            is Some,
    decreases actors.len(),
{
    if actors.len() == 0 {
    } else if actors.last().is_player && actors.last().viewshed is Some {
    } else {
        lemma_last_player_char(actors.drop_last());
        assert forall|j: int| 0 <= j < actors.len() - 1 implies actors[j] == actors.drop_last()[j]
            by {}
    }
}

/// The state relation `update_map_visibility` establishes.
pub open spec fn update_map_visibility_rel(pre: GameState, post: GameState) -> bool {
    &&& pre.events.visibility_changed@.len() == 0 ==> post.map == pre.map
            && post.events == pre.events
    &&& pre.events.visibility_changed@.len() > 0 && last_player_vs(pre.actors@) >= 0
            ==> ({
            let lp = last_player_vs(pre.actors@);
            let tiles = pre.actors@[lp].viewshed->Some_0.visible_tiles@;
            &&& forall|q2: WorldPos| post.map.is_visible(q2) == tiles.contains(q2)
            &&& forall|q2: WorldPos|
                post.map.is_seen(q2) == (pre.map.is_seen(q2) || exists|j: int|
                    0 <= j < pre.actors@.len() && (#[trigger] pre.actors@[j]).is_player && pre.actors@[j].viewshed is Some && pre.actors@[j].viewshed->Some_0.visible_tiles@.contains(q2))
            &&& post.map.tiles@ == pre.map.tiles@
            &&& post.map.populated@ == pre.map.populated@
            &&& post.map.rooms@ == pre.map.rooms@
            &&& post.events.map_changed@.len() > pre.events.map_changed@.len()
        })
    &&& pre.events.visibility_changed@.len() > 0 && last_player_vs(pre.actors@)
            == -1 ==> ({
            &&& post.map.visible@ == pre.map.visible@
            &&& post.map.tiles@ == pre.map.tiles@
            &&& forall|q2: WorldPos| post.map.is_seen(q2) == pre.map.is_seen(q2)
        })
    &&& post.actors@ == pre.actors@
    &&& post.turn_order == pre.turn_order
    &&& post.blocked.0 == pre.blocked.0
    &&& post.combat_tiles.0 == pre.combat_tiles.0
    &&& post.events.finished_turn@ == pre.events.finished_turn@
    &&& post.events.moved@ == pre.events.moved@
    &&& post.events.melee@ == pre.events.melee@
    &&& post.events.suffers@ == pre.events.suffers@
    &&& post.events.dies@ == pre.events.dies@
    &&& post.events.visibility_changed@ == pre.events.visibility_changed@
    &&& post.player_map == pre.player_map
    &&& post.input == pre.input
    &&& post.moved_in_frame == pre.moved_in_frame
    &&& post.no_action == pre.no_action
}

/// Push the player's freshly computed viewshed onto the map's visible and
/// seen sets, when any viewshed changed this cycle; the map then announces
/// that its presentation must be rebuilt.
pub fn update_map_visibility(state: &mut GameState)
    requires
        old(state).wf(),
    ensures
        final(state).wf(),
        update_map_visibility_rel(*old(state), *final(state)),
    {
    if state.events.visibility_changed.len() == 0 {
        return ;
    }
    let n = state.actors.len();
    let mut i: usize = 0;
    while i < n
        invariant
            n == state.actors@.len(),
            i <= n,
            state.actors@ == old(state).actors@,
            state.map.wf(),
            ({
                let lp = last_player_vs(old(state).actors@.subrange(0, i as int));
                if lp >= 0 {
                    let tiles = old(state).actors@[lp].viewshed->Some_0.visible_tiles@;
                    &&& (forall|q2: WorldPos| state.map.is_visible(q2) == tiles.contains(q2))
                    &&& state.events.map_changed@.len() > old(state).events.map_changed@.len()
                } else {
                    state.map.visible@ == old(state).map.visible@
                }
            }),
            forall|q2: WorldPos|
                state.map.is_seen(q2) == (old(state).map.is_seen(q2) || exists|j: int|
                    0 <= j < i && (#[trigger] old(state).actors@[j]).is_player && old(
                        state,
                    ).actors@[j].viewshed is Some && old(
                        state,
                    ).actors@[j].viewshed->Some_0.visible_tiles@.contains(q2)),
            state.map.tiles@ == old(state).map.tiles@,
            state.map.populated@ == old(state).map.populated@,
            state.map.rooms@ == old(state).map.rooms@,
            state.map.default_tile == old(state).map.default_tile,
            state.events.map_changed@.len() >= old(state).events.map_changed@.len(),
            state.turn_order == old(state).turn_order,
            state.blocked.0 == old(state).blocked.0,
            state.combat_tiles.0 == old(state).combat_tiles.0,
            state.events.finished_turn@ == old(state).events.finished_turn@,
            state.events.moved@ == old(state).events.moved@,
            state.events.melee@ == old(state).events.melee@,
            state.events.suffers@ == old(state).events.suffers@,
            state.events.dies@ == old(state).events.dies@,
            state.events.visibility_changed@ == old(state).events.visibility_changed@,
            state.player_map == old(state).player_map,
            state.input == old(state).input,
            state.moved_in_frame == old(state).moved_in_frame,
            state.no_action == old(state).no_action,
            old(state).wf(),
        decreases n - i,
    {
        let is_pl = state.actors[i].is_player && state.actors[i].viewshed.is_some();
        if is_pl {
            match &state.actors[i].viewshed {
                Some(vs) => {
                    state.map.set_visible_exact(&vs.visible_tiles);
                },
                None => {},
            }
            state.events.map_changed.push(MapChangedEvent);
        }
        proof {
            let sub = old(state).actors@.subrange(0, i + 1);
            assert(sub.drop_last() =~= old(state).actors@.subrange(0, i as int));
            assert(sub.last() == old(state).actors@[i as int]);
        }
        i += 1;
    }
    proof {
        assert(old(state).actors@.subrange(0, n as int) =~= old(state).actors@);
        lemma_last_player_char(old(state).actors@);
    }
}

/// What one simulation cycle reports to the caller: whether the acting
/// side produced a no-action outcome (so running further cycles this frame
/// is pointless), and whether the map's visibility changed (so any cached
/// presentation must be rebuilt).
#[derive(Copy, Clone, Eq, PartialEq, Structural, Debug)]
pub struct CycleOutcome {
    pub no_action: bool,
    pub map_changed: bool,
}

/// The relation one full cycle establishes up to (but not including) the
/// final event drain: the sixteen passes ran in their fixed order —
/// registration, then the acting passes (player, then monsters), then the
/// consequence passes (combat, damage, index synchronization, visibility,
/// death cleanup), then the turn rotation — each doing exactly what its own
/// relation states.
pub open spec fn cycle_passes_rel(s0: GameState, s16: GameState) -> bool {
    exists|
        s1: GameState,
        s2: GameState,
        s3: GameState,
        s4: GameState,
        s5: GameState,
        s6: GameState,
        s7: GameState,
        s8: GameState,
        s9: GameState,
        s10: GameState,
        s11: GameState,
        s12: GameState,
        s13: GameState,
        s14: GameState,
        s15: GameState,
    |
        #![trigger assign_turn_order_rel(s0, s1), clear_turn_order_requests_rel(s1, s2),
            assign_block_map_indexing_rel(s2, s3), assign_combat_map_indexing_rel(s3, s4),
            clear_indexing_requests_rel(s4, s5), handle_input_rel(s5, s6),
            monster_ai_rel(s6, s7), process_combat_event_rel(s7, s8),
            process_suffers_damage_event_rel(s8, s9), update_blocked_map_rel(s9, s10),
            update_combat_stats_map_rel(s10, s11), compute_viewsheds_rel(s11, s12),
            update_map_visibility_rel(s12, s13), death_system_rel(s13, s14),
            remove_dead_from_maps_rel(s14, s15)]
        {
            &&& assign_turn_order_rel(s0, s1)
            &&& clear_turn_order_requests_rel(s1, s2)
            &&& assign_block_map_indexing_rel(s2, s3)
            &&& assign_combat_map_indexing_rel(s3, s4)
            &&& clear_indexing_requests_rel(s4, s5)
            &&& handle_input_rel(s5, s6)
            &&& monster_ai_rel(s6, s7)
            &&& process_combat_event_rel(s7, s8)
            &&& process_suffers_damage_event_rel(s8, s9)
            &&& update_blocked_map_rel(s9, s10)
            &&& update_combat_stats_map_rel(s10, s11)
            &&& compute_viewsheds_rel(s11, s12)
            &&& update_map_visibility_rel(s12, s13)
            &&& death_system_rel(s13, s14)
            &&& remove_dead_from_maps_rel(s14, s15)
            &&& next_turn_rel(s15, s16)
        }
}

/// Run one full simulation cycle: registration passes first, then the
/// acting passes (player, then monsters), then the consequence passes
/// (combat, damage, index synchronization, visibility, death cleanup), and
/// finally the turn rotation and the event drain. Exactly one queue-front
/// actor gets to act. The result is the chained composition of the pass
/// relations: some intermediate state carries everything the cycle decided
/// (who acted, what was hit, who died, how the queue rotated), and the
/// final state is that state with its event queues drained.
pub fn run_cycle(state: &mut GameState) -> (r: CycleOutcome)
    requires
        old(state).wf(),
        old(state).map.populated@.len() + 1 < 0x7fff_0000,
    ensures
        final(state).wf(),
        exists|mid: GameState|
            #[trigger] cycle_passes_rel(*old(state), mid) && drain_turn_events_rel(
                mid,
                *final(state),
            ) && r.no_action == mid.no_action.0 && r.map_changed == (mid.events.map_changed@.len()
                > 0),
        final(state).events.finished_turn@.len() == 0,
        final(state).events.moved@.len() == 0,
        final(state).events.melee@.len() == 0,
        final(state).events.suffers@.len() == 0,
        final(state).events.dies@.len() == 0,
        final(state).events.map_changed@.len() == 0,
        final(state).events.visibility_changed@.len() == 0,
        r.no_action == final(state).no_action.0,
{
    let ghost g0 = *state;
    assign_turn_order(state);
    let ghost g1 = *state;
    clear_turn_order_requests(state);
    let ghost g2 = *state;
    assign_block_map_indexing(state);
    let ghost g3 = *state;
    assign_combat_map_indexing(state);
    let ghost g4 = *state;
    clear_indexing_requests(state);
    let ghost g5 = *state;
    handle_input(state);
    let ghost g6 = *state;
    monster_ai(state);
    let ghost g7 = *state;
    process_combat_event(state);
    let ghost g8 = *state;
    process_suffers_damage_event(state);
    let ghost g9 = *state;
    update_blocked_map(state);
    let ghost g10 = *state;
    update_combat_stats_map(state);
    let ghost g11 = *state;
    compute_viewsheds(state);
    let ghost g12 = *state;
    update_map_visibility(state);
    let ghost g13 = *state;
    death_system(state);
    let ghost g14 = *state;
    remove_dead_from_maps(state);
    let ghost g15 = *state;
    next_turn(state);
    let ghost g16 = *state;
    let outcome = CycleOutcome {
        no_action: state.no_action.0,
        map_changed: state.events.map_changed.len() > 0,
    };
    drain_turn_events(state);
    proof {
        assert(assign_turn_order_rel(g0, g1));
        assert(clear_turn_order_requests_rel(g1, g2));
        assert(assign_block_map_indexing_rel(g2, g3));
        assert(assign_combat_map_indexing_rel(g3, g4));
        assert(clear_indexing_requests_rel(g4, g5));
        assert(handle_input_rel(g5, g6));
        assert(monster_ai_rel(g6, g7));
        assert(process_combat_event_rel(g7, g8));
        assert(process_suffers_damage_event_rel(g8, g9));
        assert(update_blocked_map_rel(g9, g10));
        assert(update_combat_stats_map_rel(g10, g11));
        assert(compute_viewsheds_rel(g11, g12));
        assert(update_map_visibility_rel(g12, g13));
        assert(death_system_rel(g13, g14));
        assert(remove_dead_from_maps_rel(g14, g15));
        assert(next_turn_rel(g15, g16));
        assert(cycle_passes_rel(g0, g16));
        assert(drain_turn_events_rel(g16, *state));
        assert(outcome.no_action == g16.no_action.0);
        assert(outcome.map_changed == (g16.events.map_changed@.len() > 0));
    }
    outcome
}

/// Add a freshly created actor to the world; refuses a duplicate
/// identifier.
pub fn spawn(state: &mut GameState, actor: Actor) -> (r: bool)
    requires
        old(state).wf(),
        actor_ok(actor),
    ensures
        final(state).wf(),
        r == (find_idx(old(state).actors@, actor.id) == -1),
        r ==> final(state).actors@ == old(state).actors@.push(actor),
        !r ==> final(state).actors@ == old(state).actors@,
        final(state).map == old(state).map,
        final(state).turn_order == old(state).turn_order,
        final(state).blocked.0 == old(state).blocked.0,
        final(state).combat_tiles.0 == old(state).combat_tiles.0,
        final(state).events == old(state).events,
        final(state).player_map == old(state).player_map,
        final(state).input == old(state).input,
        final(state).moved_in_frame == old(state).moved_in_frame,
        final(state).no_action == old(state).no_action,
{
    match find_actor_idx(&state.actors, actor.id) {
        Some(_) => false,
        None => {
            proof {
                lemma_find_idx_char(old(state).actors@, actor.id);
            }
            state.actors.push(actor);
            proof {
                assert forall|a: int, b: int|
                    0 <= a < b < state.actors@.len() implies (#[trigger] state.actors@[a]).id
                    != (#[trigger] state.actors@[b]).id by {
                    if b == state.actors@.len() - 1 {
                        assert(old(state).actors@[a].id != actor.id);
                    }
                }
            }
            true
        },
    }
}

/// The two monster varieties that populate a fresh dungeon.
#[derive(Copy, Clone, Eq, PartialEq, Structural, Hash, Debug)]
pub enum MonsterKind {
    StrongOrc,
    KnifeOrc,
}

pub open spec fn monster_stats(kind: MonsterKind) -> CombatStats {
    match kind {
        MonsterKind::KnifeOrc => CombatStats { max_hp: 12, hp: 12, defense: 1, power: 4 },
        MonsterKind::StrongOrc => CombatStats { max_hp: 16, hp: 16, defense: 2, power: 3 },
    }
}

pub open spec fn player_stats() -> CombatStats {
    CombatStats { max_hp: 30, hp: 30, defense: 2, power: 5 }
}

/// Generate a dungeon and populate it: the player spawns at the center of
/// the first room with the standard player stats, and each further room
/// gets one monster of a randomly drawn kind at its center. Every actor
/// asks for a turn-order slot and for map indexing, blocks movement, and
/// starts with a dirty viewshed.
pub fn make_map() -> (r: (GameState, Vec<BoundingBox>))
    ensures
        r.0.wf(),
        r.1@.len() >= 1,
        r.0.actors@.len() == r.1@.len(),
        r.0.actors@.len() >= 1,
        r.0.actors@[0].is_player,
        r.0.actors@[0].stats == Some(player_stats()),
        r.0.actors@[0].blocks_movement && r.0.actors@[0].wants_turn_order
            && r.0.actors@[0].wants_map_indexing,
        r.0.actors@[0].viewshed is Some,
        r.0.map.passable_spec(r.0.actors@[0].pos),
        forall|i: int|
            1 <= i < r.0.actors@.len() ==> ({
                &&& (#[trigger] r.0.actors@[i]).monster_ai
                &&& !r.0.actors@[i].is_player
                &&& r.0.actors@[i].blocks_movement
                &&& r.0.actors@[i].wants_turn_order
                &&& r.0.actors@[i].wants_map_indexing
                &&& r.0.actors@[i].viewshed is Some
                &&& (r.0.actors@[i].stats == Some(monster_stats(MonsterKind::KnifeOrc))
                    || r.0.actors@[i].stats == Some(monster_stats(MonsterKind::StrongOrc)))
                &&& r.0.map.passable_spec(r.0.actors@[i].pos)
            }),
{
    let (map, rooms) = make_new_map();
    let mut state = GameState::new(map);
    let room = rooms[0];
    let (px, py) = room.center();
    let player = Actor {
        id: 0,
        pos: WorldPos { x: px, y: py },
        is_player: true,
        monster_ai: false,
        blocks_movement: true,
        stats: Some(CombatStats { max_hp: 30, hp: 30, defense: 2, power: 5 }),
        viewshed: Some(Viewshed::new()),
        wants_turn_order: true,
        wants_map_indexing: true,
    };
    let ok = spawn(&mut state, player);
    proof {
        assert(ok);
        assert(bb_contains(rooms@[0], (WorldPos { x: px, y: py })));
    }

    let nrooms = rooms.len();
    let mut i: usize = 1;
    while i < nrooms
        invariant
            nrooms == rooms@.len(),
            1 <= i <= nrooms,
            state.wf(),
            state.actors@.len() == i,
            state.actors@[0].is_player,
            state.actors@[0].stats == Some(player_stats()),
            state.actors@[0].blocks_movement && state.actors@[0].wants_turn_order
                && state.actors@[0].wants_map_indexing,
            state.actors@[0].viewshed is Some,
            state.map.passable_spec(state.actors@[0].pos),
            forall|j: int| 0 <= j < i ==> (#[trigger] state.actors@[j]).id == j,
            forall|j: int|
                1 <= j < i ==> ({
                    &&& (#[trigger] state.actors@[j]).monster_ai
                    &&& !state.actors@[j].is_player
                    &&& state.actors@[j].blocks_movement
                    &&& state.actors@[j].wants_turn_order
                    &&& state.actors@[j].wants_map_indexing
                    &&& state.actors@[j].viewshed is Some
                    &&& (state.actors@[j].stats == Some(monster_stats(MonsterKind::KnifeOrc))
                        || state.actors@[j].stats == Some(monster_stats(MonsterKind::StrongOrc)))
                    &&& state.map.passable_spec(state.actors@[j].pos)
                }),
            forall|k: int, q: WorldPos|
                0 <= k < rooms@.len() && bb_contains(#[trigger] rooms@[k], q)
                    ==> #[trigger] state.map.tile_at(q) == TileType::Floor,
            forall|k: int| 0 <= k < rooms@.len() ==> room_in_map(#[trigger] rooms@[k]),
        decreases nrooms - i,
    {
        let mroom = rooms[i];
        let (mx, my) = mroom.center();
        let kind = if rand_range(0, 2) == 0 {
            MonsterKind::KnifeOrc
        } else {
            MonsterKind::StrongOrc
        };
        let stats = match kind {
            MonsterKind::KnifeOrc => CombatStats { max_hp: 12, hp: 12, defense: 1, power: 4 },
            MonsterKind::StrongOrc => CombatStats { max_hp: 16, hp: 16, defense: 2, power: 3 },
        };
        let monster = Actor {
            id: i as u64,
            pos: WorldPos { x: mx, y: my },
            is_player: false,
            monster_ai: true,
            blocks_movement: true,
            stats: Some(stats),
            viewshed: Some(Viewshed::new()),
            wants_turn_order: true,
            wants_map_indexing: true,
        };
        let ghost pre = state.actors@;
        let ok2 = spawn(&mut state, monster);
        proof {
            lemma_find_idx_char(pre, i as u64);
            if find_idx(pre, i as u64) != -1 {
                assert(pre[find_idx(pre, i as u64)].id == i as u64);
                assert(false);
            }
            assert(ok2);
            assert(bb_contains(rooms@[i as int], (WorldPos { x: mx, y: my })));
        }
        i += 1;
    }
    (state, rooms)
}

} // verus!
