use vstd::prelude::*;

use std::collections::HashMap;

use crate::components::{pos_ok, WorldPos, MAX_COORD};
use crate::map::{
    lemma_adjacent_member, lemma_passable_pos_ok, lemma_pos_key_injective, pos_key, pos_key_exec,
    step_adj, GameMap,
};

verus! {

broadcast use vstd::std_specs::hash::group_hash_axioms;

/// A frontier entry: a tentative distance and the tile it is for, ordered by
/// distance first and then by position for deterministic tie-breaking.
#[derive(Copy, Clone, Eq, PartialEq, Structural, Debug)]
struct TilePriority(i32, WorldPos);

/// Strict lexicographic order on (distance, x, y).
spec fn prio_lt(a: TilePriority, b: TilePriority) -> bool {
    a.0 < b.0 || (a.0 == b.0 && (a.1.x < b.1.x || (a.1.x == b.1.x && a.1.y < b.1.y)))
}

/// The walkable-step relation the distance field is computed over: `q` is
/// orthogonally adjacent to `p`, passable on the map, and not excluded by the
/// caller's blocked set.
pub open spec fn edge(m: GameMap, blocked: Seq<WorldPos>, p: WorldPos, q: WorldPos) -> bool {
    step_adj(p, q) && m.passable_spec(q) && !blocked.contains(q)
}

/// Whether the field holds an entry for a position.
pub open spec fn dm_contains(d: Map<u64, i32>, p: WorldPos) -> bool {
    d.contains_key(pos_key(p))
}

/// The field's distance for a position (meaningful only when present).
pub open spec fn dm_at(d: Map<u64, i32>, p: WorldPos) -> int {
    d[pos_key(p)] as int
}

/// What the computed field satisfies; together these clauses pin the field to
/// exactly the shortest walkable distance from the source set, with a domain
/// of exactly the reachable positions.
pub open spec fn dijkstra_post(
    m: GameMap,
    sources: Seq<WorldPos>,
    blocked: Seq<WorldPos>,
    d: Map<u64, i32>,
) -> bool {
    &&& forall|p: WorldPos|
        #[trigger] sources.contains(p) ==> dm_contains(d, p) && dm_at(d, p) == 0
    &&& forall|p: WorldPos| #[trigger] dm_contains(d, p) ==> 0 <= dm_at(d, p)
    &&& forall|p: WorldPos|
        #[trigger] dm_contains(d, p) && dm_at(d, p) == 0 ==> sources.contains(p)
    &&& forall|p: WorldPos|
        #[trigger] dm_contains(d, p) && dm_at(d, p) > 0 ==> exists|q: WorldPos|
            dm_contains(d, q) && edge(m, blocked, q, p) && dm_at(d, q) == dm_at(d, p) - 1
    &&& forall|p: WorldPos, q: WorldPos|
        dm_contains(d, p) && #[trigger] edge(m, blocked, p, q) ==> dm_contains(d, q) && dm_at(
            d,
            q,
        ) <= dm_at(d, p) + 1
    &&& forall|p: WorldPos|
        #[trigger] dm_contains(d, p) ==> sources.contains(p) || (m.passable_spec(p)
            && !blocked.contains(p))
}

/// An entry of the frontier is justified: it is a source at distance zero, or
/// one step beyond an already finalized position.
spec fn qjust(
    m: GameMap,
    sources: Seq<WorldPos>,
    blocked: Seq<WorldPos>,
    d: Map<u64, i32>,
    t: TilePriority,
) -> bool {
    (t.0 == 0 && sources.contains(t.1)) || (exists|q: WorldPos|
        dm_contains(d, q) && edge(m, blocked, q, t.1) && t.0 == dm_at(d, q) + 1)
}

/// The frontier holds an entry with this distance for this position.
spec fn queue_has(q: Seq<TilePriority>, dist: int, p: WorldPos) -> bool {
    exists|i: int| 0 <= i < q.len() && q[i].1 == p && q[i].0 == dist
}

/// Remove and return the least entry of the frontier, by (distance, x, y).
fn pop_min(q: &mut Vec<TilePriority>) -> (r: TilePriority)
    requires
        old(q)@.len() > 0,
    ensures
        final(q)@.len() == old(q)@.len() - 1,
        exists|i: int| 0 <= i < old(q)@.len() && old(q)@[i] == r && final(q)@ == old(q)@.remove(i),
        forall|i: int| 0 <= i < final(q)@.len() ==> r.0 <= (#[trigger] final(q)@[i]).0,
        forall|i: int| 0 <= i < old(q)@.len() ==> r.0 <= (#[trigger] old(q)@[i]).0,
{
    let n = q.len();
    let mut best: usize = 0;
    let mut i: usize = 1;
    while i < n
        invariant
            n == q@.len(),
            n > 0,
            best < i <= n,
            forall|j: int| 0 <= j < i ==> !prio_lt(#[trigger] q@[j], q@[best as int]),
        decreases n - i,
    {
        let c = &q[i];
        let b = &q[best];
        if c.0 < b.0 || (c.0 == b.0 && (c.1.x < b.1.x || (c.1.x == b.1.x && c.1.y < b.1.y))) {
            best = i;
        }
        i += 1;
    }
    let r = q.remove(best);
    proof {
        assert(old(q)@[best as int] == r && q@ == old(q)@.remove(best as int));
        assert forall|j: int| 0 <= j < q@.len() implies r.0 <= (#[trigger] q@[j]).0 by {
            if j < best {
                assert(q@[j] == old(q)@[j]);
            } else {
                assert(q@[j] == old(q)@[j + 1]);
            }
        }
    }
    r
}

fn vec_has_pos(v: &Vec<WorldPos>, x: WorldPos) -> (r: bool)
    ensures
        r == v@.contains(x),
{
    let n = v.len();
    let mut i: usize = 0;
    while i < n
        invariant
            n == v@.len(),
            i <= n,
            forall|j: int| 0 <= j < i ==> v@[j] != x,
        decreases n - i,
    {
        if v[i] == x {
            return true;
        }
        i += 1;
    }
    false
}

/// Multi-source shortest-distance field ("Dijkstra map") over the grid's
/// walkable adjacency, with uniform edge weight one. Every source gets
/// distance zero (whether or not it is itself passable); positions in
/// `blocked` are never entered. Positions unreachable from every source are
/// absent from the result.
pub fn distance_dijkstra_map(
    map: &GameMap,
    destinations: &Vec<WorldPos>,
    blocked: &Vec<WorldPos>,
) -> (r: HashMap<u64, i32>)
    requires
        map.wf(),
        forall|i: int| 0 <= i < destinations@.len() ==> pos_ok(#[trigger] destinations@[i]),
        destinations@.len() + map.populated@.len() < 0x7fff_0000,
    ensures
        dijkstra_post(*map, destinations@, blocked@, r@),
{
    let mut distances: HashMap<u64, i32> = HashMap::new();
    let mut to_process: Vec<TilePriority> = Vec::new();

    let nsrc = destinations.len();
    let mut si: usize = 0;
    while si < nsrc
        invariant
            nsrc == destinations@.len(),
            si <= nsrc,
            to_process@.len() == si,
            forall|i: int|
                0 <= i < si ==> (#[trigger] to_process@[i]) == (TilePriority(
                    0,
                    destinations@[i],
                )),
        decreases nsrc - si,
    {
        to_process.push(TilePriority(0, destinations[si]));
        si += 1;
    }

    let ghost srcs = destinations@;
    let ghost bl = blocked@;
    let ghost bigset = map.populated@.map_values(|p: WorldPos| pos_key(p)).to_set().union(
        srcs.map_values(|p: WorldPos| pos_key(p)).to_set(),
    );
    let ghost bign = srcs.len() + map.populated@.len();
    proof {
        broadcast use vstd::seq_lib::seq_to_set_is_finite;

        map.populated@.map_values(|p: WorldPos| pos_key(p)).lemma_cardinality_of_set();
        srcs.map_values(|p: WorldPos| pos_key(p)).lemma_cardinality_of_set();
        vstd::set_lib::lemma_len_union(
            map.populated@.map_values(|p: WorldPos| pos_key(p)).to_set(),
            srcs.map_values(|p: WorldPos| pos_key(p)).to_set(),
        );
        assert(bigset.finite() && bigset.len() <= bign);
        assert forall|i: int| 0 <= i < to_process@.len() implies qjust(
            *map,
            srcs,
            bl,
            distances@,
            #[trigger] to_process@[i],
        ) by {
            assert(srcs.contains(srcs[i]));
        }
        assert forall|p: WorldPos| #[trigger] srcs.contains(p) implies queue_has(
            to_process@,
            0,
            p,
        ) by {
            let i = choose|i: int| 0 <= i < srcs.len() && srcs[i] == p;
            assert(to_process@[i].1 == p && to_process@[i].0 == 0);
        }
    }

    while to_process.len() > 0
        invariant
            map.wf(),
            srcs == destinations@,
            bl == blocked@,
            bign == srcs.len() + map.populated@.len(),
            bign < 0x7fff_0000,
            bigset == map.populated@.map_values(|p: WorldPos| pos_key(p)).to_set().union(
                srcs.map_values(|p: WorldPos| pos_key(p)).to_set(),
            ),
            bigset.finite(),
            bigset.len() <= bign,
            forall|k: u64| distances@.dom().contains(k) ==> bigset.contains(k),
            distances@.dom().finite(),
            distances@.dom().len() <= bigset.len(),
            // every frontier entry is justified, workable, and bounded
            forall|i: int|
                0 <= i < to_process@.len() ==> qjust(
                    *map,
                    srcs,
                    bl,
                    distances@,
                    #[trigger] to_process@[i],
                ),
            forall|i: int|
                0 <= i < to_process@.len() ==> pos_ok((#[trigger] to_process@[i]).1) && (
                srcs.contains(to_process@[i].1) || (map.passable_spec(to_process@[i].1)
                    && !bl.contains(to_process@[i].1))),
            forall|i: int|
                0 <= i < to_process@.len() ==> 0 <= (#[trigger] to_process@[i]).0
                    <= distances@.dom().len(),
            // sources are finalized at zero or still queued at zero
            forall|p: WorldPos|
                #[trigger] srcs.contains(p) ==> (dm_contains(distances@, p) && dm_at(distances@, p)
                    == 0) || queue_has(to_process@, 0, p),
            // finalized entries: bounded, zero exactly for sources, justified
            // by descent, and on workable ground
            forall|p: WorldPos|
                #[trigger] dm_contains(distances@, p) ==> 0 <= dm_at(distances@, p)
                    < distances@.dom().len() + 1,
            forall|p: WorldPos|
                #[trigger] dm_contains(distances@, p) && dm_at(distances@, p) == 0
                    ==> srcs.contains(p),
            forall|p: WorldPos|
                #[trigger] dm_contains(distances@, p) && srcs.contains(p) ==> dm_at(distances@, p)
                    == 0,
            forall|p: WorldPos|
                #[trigger] dm_contains(distances@, p) && dm_at(distances@, p) > 0 ==> exists|
                    q: WorldPos,
                |
                    dm_contains(distances@, q) && edge(*map, bl, q, p) && dm_at(distances@, q)
                        == dm_at(distances@, p) - 1,
            forall|p: WorldPos|
                #[trigger] dm_contains(distances@, p) ==> srcs.contains(p) || (map.passable_spec(p)
                    && !bl.contains(p)),
            // neighbors of finalized positions are finalized or queued one
            // step further out
            forall|p: WorldPos, q: WorldPos|
                dm_contains(distances@, p) && #[trigger] edge(*map, bl, p, q) ==> dm_contains(
                    distances@,
                    q,
                ) || queue_has(to_process@, dm_at(distances@, p) + 1, q),
            // finalized distances never exceed queued ones
            forall|p: WorldPos, i: int|
                #![trigger dm_at(distances@, p), to_process@[i]]
                dm_contains(distances@, p) && 0 <= i < to_process@.len() ==> dm_at(distances@, p)
                    <= to_process@[i].0,
            // the triangle bound inside the finalized set
            forall|p: WorldPos, q: WorldPos|
                dm_contains(distances@, p) && dm_contains(distances@, q) && #[trigger] edge(
                    *map,
                    bl,
                    p,
                    q,
                ) ==> dm_at(distances@, q) <= dm_at(distances@, p) + 1,
        decreases 5 * (bigset.len() - distances@.dom().len()) + to_process@.len(),
    {
        let ghost q_before = to_process@;
        let ghost d_before = distances@;
        let t = pop_min(&mut to_process);
        let ghost pop_idx = choose|i: int|
            0 <= i < q_before.len() && q_before[i] == t && to_process@ == q_before.remove(i);
        let priority = t.0;
        let wp = t.1;
        let k = pos_key_exec(wp);
        let existing = match distances.get(&k) {
            Some(v) => *v,
            None => i32::MAX,
        };
        proof {
            assert forall|dd: int, p: WorldPos| queue_has(q_before, dd, p) implies queue_has(
                to_process@,
                dd,
                p,
            ) || (priority == dd && wp == p) by {
                let j = choose|j: int| 0 <= j < q_before.len() && q_before[j].1 == p
                    && q_before[j].0 == dd;
                if j != pop_idx {
                    if j < pop_idx {
                        assert(to_process@[j] == q_before[j]);
                    } else {
                        assert(to_process@[j - 1] == q_before[j]);
                    }
                }
            }
        }
        if priority < existing {
            proof {
                assert(!dm_contains(distances@, wp));
                assert(bigset.contains(pos_key(wp))) by {
                    assert(qjust(*map, srcs, bl, distances@, t));
                    if srcs.contains(wp) {
                        let i = choose|i: int| 0 <= i < srcs.len() && srcs[i] == wp;
                        assert(srcs.map_values(|p: WorldPos| pos_key(p))[i] == pos_key(wp));
                        assert(srcs.map_values(|p: WorldPos| pos_key(p)).to_set().contains(
                            pos_key(wp),
                        ));
                    } else {
                        lemma_passable_pos_ok(*map, wp);
                        let i = choose|i: int|
                            0 <= i < map.populated@.len() && map.populated@[i] == wp;
                        assert(map.populated@.map_values(|p: WorldPos| pos_key(p))[i] == pos_key(
                            wp,
                        ));
                        assert(map.populated@.map_values(|p: WorldPos| pos_key(p)).to_set().contains(
                            pos_key(wp),
                        ));
                    }
                }
                assert(distances@.dom().len() < bigset.len()) by {
                    assert(!distances@.dom().contains(pos_key(wp)));
                    vstd::set_lib::lemma_len_subset(distances@.dom().insert(pos_key(wp)), bigset);
                    assert(distances@.dom().insert(pos_key(wp)).len() == distances@.dom().len()
                        + 1);
                }
            }
            distances.insert(k, priority);
            let ghost d_now = distances@;
            proof {
                assert(d_now == d_before.insert(pos_key(wp), priority));
                assert(d_now.dom() =~= d_before.dom().insert(pos_key(wp)));
                assert(d_now.dom().len() == d_before.dom().len() + 1);
                assert forall|p: WorldPos| #[trigger] dm_contains(d_now, p) && p != wp implies
                    dm_contains(d_before, p) && dm_at(d_now, p) == dm_at(d_before, p) by {
                    lemma_pos_key_injective(p, wp);
                }
                assert forall|p: WorldPos| #[trigger] dm_contains(d_before, p) implies dm_contains(
                    d_now,
                    p,
                ) && dm_at(d_now, p) == dm_at(d_before, p) by {
                    lemma_pos_key_injective(p, wp);
                    assert(p != wp);
                }
                assert(dm_contains(d_now, wp) && dm_at(d_now, wp) == priority);
                // the fresh distance respects the order: it is zero for
                // sources, and one beyond its justifying predecessor
                assert(qjust(*map, srcs, bl, d_before, t));
                if srcs.contains(wp) {
                    assert((dm_contains(d_before, wp) && dm_at(d_before, wp) == 0) || queue_has(
                        q_before,
                        0,
                        wp,
                    ));
                    assert(queue_has(q_before, 0, wp));
                    let j = choose|j: int| 0 <= j < q_before.len() && q_before[j].1 == wp
                        && q_before[j].0 == 0;
                    assert(priority <= q_before[j].0);
                    assert(priority == 0);
                }
            }
            let adjacent = map.adjacent(wp);
            let ghost q_mid = to_process@;
            let nadj = adjacent.len();
            let mut ai: usize = 0;
            while ai < nadj
                invariant
                    nadj == adjacent@.len(),
                    ai <= nadj,
                    adjacent@ == map.adjacent_spec(wp),
                    map.wf(),
                    bl == blocked@,
                    pos_ok(wp),
                    priority == t.0,
                    wp == t.1,
                    0 <= priority < 0x7fff_0000,
                    dm_contains(distances@, wp) && dm_at(distances@, wp) == priority,
                    distances@ == d_now,
                    q_mid.len() <= to_process@.len() <= q_mid.len() + ai,
                    forall|j: int| 0 <= j < q_mid.len() ==> #[trigger] to_process@[j] == q_mid[j],
                    forall|j: int|
                        q_mid.len() <= j < to_process@.len() ==> (#[trigger] to_process@[j]).0
                            == priority + 1 && edge(*map, bl, wp, to_process@[j].1),
                    forall|j: int|
                        0 <= j < ai ==> (bl.contains(#[trigger] adjacent@[j]) || queue_has(
                            to_process@,
                            priority + 1,
                            adjacent@[j],
                        )),
                decreases nadj - ai,
            {
                let tile = adjacent[ai];
                if !vec_has_pos(blocked, tile) {
                    let ghost q_prev = to_process@;
                    to_process.push(TilePriority(priority + 1, tile));
                    proof {
                        lemma_adjacent_member(*map, wp, tile);
                        assert(adjacent@.contains(tile));
                        assert(edge(*map, bl, wp, tile));
                        assert forall|dd: int, p: WorldPos| queue_has(q_prev, dd, p) implies
                            queue_has(to_process@, dd, p) by {
                            let jj = choose|jj: int|
                                0 <= jj < q_prev.len() && q_prev[jj].1 == p && q_prev[jj].0 == dd;
                            assert(to_process@[jj] == q_prev[jj]);
                        }
                        assert(to_process@[to_process@.len() - 1].0 == priority + 1
                            && to_process@[to_process@.len() - 1].1 == tile);
                        assert(queue_has(to_process@, priority + 1, tile));
                    }
                }
                ai += 1;
            }
            proof {
                let qf = to_process@;
                assert(adjacent@.len() <= 4);
                // transfer of surviving frontier entries into the final queue
                assert forall|dd: int, p: WorldPos| queue_has(q_mid, dd, p) implies queue_has(
                    qf,
                    dd,
                    p,
                ) by {
                    let jj = choose|jj: int|
                        0 <= jj < q_mid.len() && q_mid[jj].1 == p && q_mid[jj].0 == dd;
                    assert(qf[jj] == q_mid[jj]);
                }
                // every entry of the final queue is justified and workable
                assert forall|i: int| 0 <= i < qf.len() implies qjust(
                    *map,
                    srcs,
                    bl,
                    d_now,
                    #[trigger] qf[i],
                ) by {
                    if i < q_mid.len() {
                        assert(qf[i] == q_mid[i]);
                        assert(qjust(*map, srcs, bl, d_before, q_mid[i]));
                        if !(q_mid[i].0 == 0 && srcs.contains(q_mid[i].1)) {
                            let q = choose|q: WorldPos|
                                dm_contains(d_before, q) && edge(*map, bl, q, q_mid[i].1)
                                    && q_mid[i].0 == dm_at(d_before, q) + 1;
                            assert(dm_contains(d_now, q) && dm_at(d_now, q) == dm_at(
                                d_before,
                                q,
                            ));
                        }
                    } else {
                        assert(qf[i].0 == priority + 1 && edge(*map, bl, wp, qf[i].1));
                    }
                }
                assert forall|i: int| 0 <= i < qf.len() implies pos_ok((#[trigger] qf[i]).1) && (
                srcs.contains(qf[i].1) || (map.passable_spec(qf[i].1) && !bl.contains(
                    qf[i].1,
                ))) by {
                    if i < q_mid.len() {
                        assert(qf[i] == q_mid[i]);
                        let jj = pop_idx;
                        if i < jj {
                            assert(q_mid[i] == q_before[i]);
                        } else {
                            assert(q_mid[i] == q_before[i + 1]);
                        }
                    } else {
                        assert(edge(*map, bl, wp, qf[i].1));
                        lemma_passable_pos_ok(*map, qf[i].1);
                    }
                }
                assert forall|i: int| 0 <= i < qf.len() implies 0 <= (#[trigger] qf[i]).0
                    <= d_now.dom().len() by {
                    if i < q_mid.len() {
                        assert(qf[i] == q_mid[i]);
                        if i < pop_idx {
                            assert(q_mid[i] == q_before[i]);
                        } else {
                            assert(q_mid[i] == q_before[i + 1]);
                        }
                    }
                }
                // sources stay covered
                assert forall|p: WorldPos| #[trigger] srcs.contains(p) implies (dm_contains(
                    d_now,
                    p,
                ) && dm_at(d_now, p) == 0) || queue_has(qf, 0, p) by {
                    if dm_contains(d_before, p) && dm_at(d_before, p) == 0 {
                    } else {
                        assert(queue_has(q_before, 0, p));
                        if !(priority == 0 && wp == p) {
                            assert(queue_has(q_mid, 0, p));
                        } else {
                            assert(dm_at(d_now, wp) == 0);
                        }
                    }
                }
                // descent for the fresh entry
                assert forall|p: WorldPos|
                    #[trigger] dm_contains(d_now, p) && dm_at(d_now, p) > 0 implies exists|
                        q: WorldPos,
                    |
                        dm_contains(d_now, q) && edge(*map, bl, q, p) && dm_at(d_now, q) == dm_at(
                            d_now,
                            p,
                        ) - 1 by {
                    if p == wp {
                        assert(qjust(*map, srcs, bl, d_before, t));
                        if t.0 == 0 && srcs.contains(wp) {
                        } else {
                            let q = choose|q: WorldPos|
                                dm_contains(d_before, q) && edge(*map, bl, q, wp) && t.0 == dm_at(
                                    d_before,
                                    q,
                                ) + 1;
                            assert(dm_contains(d_now, q) && edge(*map, bl, q, wp) && dm_at(
                                d_now,
                                q,
                            ) == dm_at(d_now, wp) - 1);
                        }
                    } else {
                        let q = choose|q: WorldPos|
                            dm_contains(d_before, q) && edge(*map, bl, q, p) && dm_at(d_before, q)
                                == dm_at(d_before, p) - 1;
                        assert(dm_contains(d_now, q) && edge(*map, bl, q, p) && dm_at(d_now, q)
                            == dm_at(d_now, p) - 1);
                    }
                }
                // zero entries are sources; sources sit at zero
                assert forall|p: WorldPos|
                    #[trigger] dm_contains(d_now, p) && dm_at(d_now, p) == 0 implies srcs.contains(
                        p,
                    ) by {
                    if p == wp {
                        assert(qjust(*map, srcs, bl, d_before, t));
                        if !(t.0 == 0 && srcs.contains(wp)) {
                            let q = choose|q: WorldPos|
                                dm_contains(d_before, q) && edge(*map, bl, q, wp) && t.0 == dm_at(
                                    d_before,
                                    q,
                                ) + 1;
                            assert(dm_at(d_before, q) >= 0);
                            assert(false);
                        }
                    }
                }
                // workable ground
                assert forall|p: WorldPos| #[trigger] dm_contains(d_now, p) implies srcs.contains(
                    p,
                ) || (map.passable_spec(p) && !bl.contains(p)) by {
                    if p == wp {
                        assert(qjust(*map, srcs, bl, d_before, t));
                    }
                }
                // neighbor coverage
                assert forall|p: WorldPos, q: WorldPos|
                    dm_contains(d_now, p) && #[trigger] edge(*map, bl, p, q) implies dm_contains(
                        d_now,
                        q,
                    ) || queue_has(qf, dm_at(d_now, p) + 1, q) by {
                    if p == wp {
                        lemma_adjacent_member(*map, wp, q);
                        assert(map.adjacent_spec(wp).contains(q));
                        let j = choose|j: int|
                            0 <= j < adjacent@.len() && adjacent@[j] == q;
                        assert(bl.contains(adjacent@[j]) || queue_has(qf, priority + 1, q));
                        assert(queue_has(qf, dm_at(d_now, wp) + 1, q));
                    } else {
                        assert(dm_contains(d_before, p));
                        if !dm_contains(d_before, q) {
                            assert(queue_has(q_before, dm_at(d_before, p) + 1, q));
                            if priority == dm_at(d_before, p) + 1 && wp == q {
                                assert(dm_contains(d_now, q));
                            } else {
                                assert(queue_has(q_mid, dm_at(d_before, p) + 1, q));
                                assert(queue_has(qf, dm_at(d_now, p) + 1, q));
                            }
                        }
                    }
                }
                // finalized distances never exceed queued ones
                assert forall|p: WorldPos, i: int|
                    #![trigger dm_at(d_now, p), qf[i]]
                    dm_contains(d_now, p) && 0 <= i < qf.len() implies dm_at(d_now, p)
                        <= qf[i].0 by {
                    if i < q_mid.len() {
                        assert(qf[i] == q_mid[i]);
                        if p == wp {
                            assert(priority <= q_mid[i].0);
                        } else {
                            if i < pop_idx {
                                assert(q_mid[i] == q_before[i]);
                            } else {
                                assert(q_mid[i] == q_before[i + 1]);
                            }
                        }
                    } else {
                        assert(qf[i].0 == priority + 1);
                        if p == wp {
                        } else {
                            assert(dm_at(d_before, p) <= q_before[pop_idx].0);
                        }
                    }
                }
                // the triangle bound inside the finalized set
                assert forall|p: WorldPos, q: WorldPos|
                    dm_contains(d_now, p) && dm_contains(d_now, q) && #[trigger] edge(
                        *map,
                        bl,
                        p,
                        q,
                    ) implies dm_at(d_now, q) <= dm_at(d_now, p) + 1 by {
                    if p == wp && q != wp {
                        assert(dm_at(d_before, q) <= q_before[pop_idx].0);
                    } else if q == wp && p != wp {
                        assert(dm_contains(d_before, p));
                        if !dm_contains(d_before, wp) {
                            assert(queue_has(q_before, dm_at(d_before, p) + 1, wp));
                            let j = choose|j: int|
                                0 <= j < q_before.len() && q_before[j].1 == wp && q_before[j].0
                                    == dm_at(d_before, p) + 1;
                            assert(priority <= q_before[j].0);
                        }
                    }
                }
                assert(d_now.dom().len() <= bigset.len());
            }
        } else {
            proof {
                assert(dm_contains(distances@, wp) && dm_at(distances@, wp) <= priority) by {
                    assert(0 <= priority <= d_before.dom().len());
                    assert(priority < 0x7fff_ffff);
                }
                assert forall|p: WorldPos| #[trigger] srcs.contains(p) implies (dm_contains(
                    distances@,
                    p,
                ) && dm_at(distances@, p) == 0) || queue_has(to_process@, 0, p) by {
                    if !(dm_contains(distances@, p) && dm_at(distances@, p) == 0) {
                        assert(queue_has(q_before, 0, p));
                        if !queue_has(to_process@, 0, p) {
                            assert(priority == 0 && wp == p);
                            assert(dm_at(distances@, wp) == 0);
                        }
                    }
                }
                assert forall|p: WorldPos, q: WorldPos|
                    dm_contains(distances@, p) && #[trigger] edge(*map, bl, p, q) implies
                    dm_contains(distances@, q) || queue_has(
                    to_process@,
                    dm_at(distances@, p) + 1,
                    q,
                ) by {
                    if !dm_contains(distances@, q) {
                        assert(queue_has(q_before, dm_at(distances@, p) + 1, q));
                        if !queue_has(to_process@, dm_at(distances@, p) + 1, q) {
                            assert(wp == q);
                            assert(dm_contains(distances@, q));
                        }
                    }
                }
            }
        }
    }
    distances
}

/// Look a position up in a distance field, with the conventional
/// "infinite" sentinel for absent (unreachable) positions.
pub fn distance_at(d: &HashMap<u64, i32>, wp: WorldPos) -> (r: i32)
    ensures
        r == if dm_contains(d@, wp) {
            dm_at(d@, wp)
        } else {
            i32::MAX as int
        },
{
    match d.get(&pos_key_exec(wp)) {
        Some(v) => *v,
        None => i32::MAX,
    }
}

/// A position can be reached from the source set in at most `n` walkable
/// steps.
pub open spec fn reach(
    m: GameMap,
    sources: Seq<WorldPos>,
    blocked: Seq<WorldPos>,
    p: WorldPos,
    n: nat,
) -> bool
    decreases n,
{
    sources.contains(p) || (n > 0 && exists|q: WorldPos|
        reach(m, sources, blocked, q, (n - 1) as nat) && edge(m, blocked, q, p))
}

/// Everything the field holds is reachable, within as many steps as its
/// recorded distance.
pub proof fn lemma_field_positions_reachable(
    m: GameMap,
    sources: Seq<WorldPos>,
    blocked: Seq<WorldPos>,
    d: Map<u64, i32>,
    p: WorldPos,
)
    requires
        dijkstra_post(m, sources, blocked, d),
        dm_contains(d, p),
    ensures
        reach(m, sources, blocked, p, dm_at(d, p) as nat),
    decreases dm_at(d, p),
{
    if dm_at(d, p) == 0 {
        assert(sources.contains(p));
    } else {
        let q = choose|q: WorldPos|
            dm_contains(d, q) && edge(m, blocked, q, p) && dm_at(d, q) == dm_at(d, p) - 1;
        lemma_field_positions_reachable(m, sources, blocked, d, q);
    }
}

/// Everything reachable is in the field, at a distance no larger than the
/// number of steps taken to reach it.
pub proof fn lemma_reachable_positions_in_field(
    m: GameMap,
    sources: Seq<WorldPos>,
    blocked: Seq<WorldPos>,
    d: Map<u64, i32>,
    p: WorldPos,
    n: nat,
)
    requires
        dijkstra_post(m, sources, blocked, d),
        reach(m, sources, blocked, p, n),
    ensures
        dm_contains(d, p),
        dm_at(d, p) <= n,
    decreases n,
{
    if sources.contains(p) {
    } else {
        let q = choose|q: WorldPos|
            reach(m, sources, blocked, q, (n - 1) as nat) && edge(m, blocked, q, p);
        lemma_reachable_positions_in_field(m, sources, blocked, d, q, (n - 1) as nat);
    }
}

/// The computed field is exactly the shortest-distance function: its domain
/// is the set of reachable positions, and each recorded distance is the
/// least number of walkable steps that reaches the position.
pub proof fn lemma_field_is_shortest_distance(
    m: GameMap,
    sources: Seq<WorldPos>,
    blocked: Seq<WorldPos>,
    d: Map<u64, i32>,
    p: WorldPos,
)
    requires
        dijkstra_post(m, sources, blocked, d),
    ensures
        dm_contains(d, p) <==> exists|n: nat| reach(m, sources, blocked, p, n),
        dm_contains(d, p) ==> reach(m, sources, blocked, p, dm_at(d, p) as nat),
        dm_contains(d, p) ==> forall|n: nat|
            reach(m, sources, blocked, p, n) ==> dm_at(d, p) <= n,
{
    if dm_contains(d, p) {
        lemma_field_positions_reachable(m, sources, blocked, d, p);
        assert(reach(m, sources, blocked, p, dm_at(d, p) as nat));
        assert forall|n: nat| reach(m, sources, blocked, p, n) implies dm_at(d, p) <= n by {
            lemma_reachable_positions_in_field(m, sources, blocked, d, p, n);
        }
    }
    if exists|n: nat| reach(m, sources, blocked, p, n) {
        let n = choose|n: nat| reach(m, sources, blocked, p, n);
        lemma_reachable_positions_in_field(m, sources, blocked, d, p, n);
    }
}

/// The grid is a single straight unobstructed corridor: exactly the tiles
/// from `src` to `n` steps to its right are passable.
pub open spec fn corridor_map(m: GameMap, src: WorldPos, n: int) -> bool {
    forall|q: WorldPos|
        #[trigger] m.passable_spec(q) <==> (q.y == src.y && src.x <= q.x <= src.x + n)
}

pub open spec fn corridor_pos(src: WorldPos, k: int) -> WorldPos {
    WorldPos { x: (src.x + k) as i32, y: src.y }
}

proof fn corridor_upper(m: GameMap, src: WorldPos, n: int, d: Map<u64, i32>, k: int)
    requires
        dijkstra_post(m, seq![src], Seq::empty(), d),
        corridor_map(m, src, n),
        -MAX_COORD <= src.x,
        src.x + n <= MAX_COORD,
        0 <= k <= n,
    ensures
        dm_contains(d, corridor_pos(src, k)),
        dm_at(d, corridor_pos(src, k)) <= k,
    decreases k,
{
    let srcs = seq![src];
    assert(srcs[0] == src);
    assert(srcs.contains(src));
    if k == 0 {
        assert(corridor_pos(src, 0) == src);
    } else {
        corridor_upper(m, src, n, d, k - 1);
        let prev = corridor_pos(src, k - 1);
        let here = corridor_pos(src, k);
        assert(m.passable_spec(here));
        assert(!Seq::<WorldPos>::empty().contains(here));
        assert(step_adj(prev, here));
        assert(edge(m, Seq::empty(), prev, here));
        assert(dm_contains(d, here) && dm_at(d, here) <= dm_at(d, prev) + 1);
    }
}

proof fn corridor_exact(m: GameMap, src: WorldPos, n: int, d: Map<u64, i32>, p: WorldPos)
    requires
        dijkstra_post(m, seq![src], Seq::empty(), d),
        corridor_map(m, src, n),
        -MAX_COORD <= src.x,
        src.x + n <= MAX_COORD,
        0 <= n,
        dm_contains(d, p),
    ensures
        p.y == src.y,
        src.x <= p.x <= src.x + n,
        dm_at(d, p) == p.x - src.x,
    decreases dm_at(d, p),
{
    let srcs = seq![src];
    assert(srcs[0] == src);
    assert(srcs.contains(src));
    if dm_at(d, p) == 0 {
        assert(srcs.contains(p));
        assert(p == src);
    } else {
        assert(!srcs.contains(p) || dm_at(d, p) == 0);
        if srcs.contains(p) {
            assert(false);
        }
        assert(m.passable_spec(p));
        assert(p.y == src.y && src.x <= p.x <= src.x + n);
        let q = choose|q: WorldPos|
            dm_contains(d, q) && edge(m, Seq::empty(), q, p) && dm_at(d, q) == dm_at(d, p) - 1;
        corridor_exact(m, src, n, d, q);
        assert(step_adj(q, p));
        assert(q.y == src.y && p.y == src.y);
        assert(q.x == p.x - 1 || q.x == p.x + 1);
        if q.x == p.x + 1 {
            corridor_upper(m, src, n, d, p.x - src.x);
            assert(corridor_pos(src, p.x - src.x) == p);
            assert(dm_at(d, p) <= p.x - src.x);
            assert(dm_at(d, p) == (q.x - src.x) + 1);
            assert(false);
        }
        assert(dm_at(d, p) == p.x - src.x);
    }
}

/// In a straight unobstructed corridor with the single source at one end,
/// the field's value at the tile `k` steps along is exactly `k`, for every
/// corridor length and every offset within it.
pub proof fn lemma_corridor_distances(
    m: GameMap,
    src: WorldPos,
    n: int,
    d: Map<u64, i32>,
    k: int,
)
    requires
        dijkstra_post(m, seq![src], Seq::empty(), d),
        corridor_map(m, src, n),
        -MAX_COORD <= src.x,
        src.x + n <= MAX_COORD,
        0 <= k <= n,
    ensures
        dm_contains(d, corridor_pos(src, k)),
        dm_at(d, corridor_pos(src, k)) == k,
{
    corridor_upper(m, src, n, d, k);
    corridor_exact(m, src, n, d, corridor_pos(src, k));
    assert(corridor_pos(src, k).x == src.x + k);
}

} // verus!
