//! The grouping engine: proximity contacts assign fresh group ids to
//! ungrouped agents, propagate ids to newly met agents, and emit merge
//! events for distinct groups that touch. Merges are batched and applied
//! in a second pass, so the outcome of one tick is order-independent
//! with respect to which merge is seen first.

use vstd::prelude::*;
use crate::fishes::{Fish, PLAYER_GROUP_ID, SimConfig};
use crate::vec3::{COORD_LIMIT, dist2, norm2};

verus! {

/// What one grouping pass emits besides the id assignments.
pub struct GroupEvents {
    /// Pairs of distinct group ids that must be unified this tick.
    pub merges: Vec<(u64, u64)>,
    /// How many contacts brought an agent or a whole group into the
    /// player's group this tick.
    pub joined_player: u64,
}

/// Ghost state of a grouping pass over a contact list.
pub struct PassState {
    /// Group id of each agent, by index.
    pub ids: Seq<Option<u64>>,
    /// Next fresh group id.
    pub next: int,
    /// Merge events emitted so far, in emission order.
    pub merges: Seq<(u64, u64)>,
    /// Player-group join events emitted so far.
    pub joined: int,
}

/// The group ids of a sequence of agents, by index.
pub open spec fn ids_of(s: Seq<Fish>) -> Seq<Option<u64>> {
    s.map_values(|f: Fish| f.group_id)
}

/// Pass state before any contact of the tick is processed.
pub open spec fn initial_pass_state(s: Seq<Fish>, next: u64) -> PassState {
    PassState { ids: ids_of(s), next: next as int, merges: Seq::empty(), joined: 0 }
}

/// Group-id resolution for one contact between the agents at `i` and `j`:
/// two ungrouped agents get one fresh id; a grouped agent propagates its id
/// to an ungrouped one; two distinct groups emit a merge event. A contact
/// naming an unknown index, or an agent and itself, is ignored. A join
/// event is counted whenever an agent or a group meets the player's group.
pub open spec fn resolve_contact_spec(st: PassState, i: int, j: int) -> PassState {
    if 0 <= i < st.ids.len() && 0 <= j < st.ids.len() && i != j {
        match (st.ids[i], st.ids[j]) {
            (None, None) => PassState {
                ids: st.ids.update(i, Some(st.next as u64)).update(j, Some(st.next as u64)),
                next: st.next + 1,
                merges: st.merges,
                joined: st.joined,
            },
            (Some(id), None) => PassState {
                ids: st.ids.update(j, Some(id)),
                next: st.next,
                merges: st.merges,
                joined: st.joined + if id == PLAYER_GROUP_ID {
                    1int
                } else {
                    0int
                },
            },
            (None, Some(id)) => PassState {
                ids: st.ids.update(i, Some(id)),
                next: st.next,
                merges: st.merges,
                joined: st.joined + if id == PLAYER_GROUP_ID {
                    1int
                } else {
                    0int
                },
            },
            (Some(id1), Some(id2)) => {
                if id1 != id2 {
                    PassState {
                        ids: st.ids,
                        next: st.next,
                        merges: st.merges.push((id1, id2)),
                        joined: st.joined + if id1 == PLAYER_GROUP_ID || id2 == PLAYER_GROUP_ID {
                            1int
                        } else {
                            0int
                        },
                    }
                } else {
                    st
                }
            },
        }
    } else {
        st
    }
}

/// A grouping pass folds the one-contact resolution over the contact
/// list in order.
pub open spec fn resolve_contacts_spec(st: PassState, contacts: Seq<(usize, usize)>) -> PassState
    decreases contacts.len(),
{
    if contacts.len() == 0 {
        st
    } else {
        resolve_contacts_spec(
            resolve_contact_spec(st, contacts[0].0 as int, contacts[0].1 as int),
            contacts.skip(1),
        )
    }
}

pub proof fn lemma_resolve_contacts_push(
    st: PassState,
    contacts: Seq<(usize, usize)>,
    c: (usize, usize),
)
    ensures
        resolve_contacts_spec(st, contacts.push(c)) == resolve_contact_spec(
            resolve_contacts_spec(st, contacts),
            c.0 as int,
            c.1 as int,
        ),
    decreases contacts.len(),
{
    reveal_with_fuel(resolve_contacts_spec, 3);
    if contacts.len() == 0 {
        assert(contacts.push(c)[0] == c);
        assert(contacts.push(c).skip(1) =~= Seq::<(usize, usize)>::empty());
    } else {
        assert(contacts.push(c)[0] == contacts[0]);
        assert(contacts.push(c).skip(1) =~= contacts.skip(1).push(c));
        lemma_resolve_contacts_push(
            resolve_contact_spec(st, contacts[0].0 as int, contacts[0].1 as int),
            contacts.skip(1),
            c,
        );
    }
}

/// Every agent's id stays below the fresh-id counter.
pub open spec fn ids_wf(ids: Seq<Option<u64>>, next: int) -> bool {
    forall|k: int|
        0 <= k < ids.len() ==> (#[trigger] ids[k] matches Some(id) ==> id < next)
}

/// Structural facts every grouping pass maintains: the agent count is
/// kept; the fresh-id counter only grows, by at most one per contact;
/// join events number at most one per contact; merge events are appended,
/// at most one per contact; an id already assigned is never changed by
/// the pass; an id newly assigned is either a fresh one or one borrowed
/// from an agent that already had it; and the id bound is preserved.
pub proof fn lemma_pass_invariants(st: PassState, contacts: Seq<(usize, usize)>)
    requires
        0 <= st.next,
        st.next + contacts.len() <= 0xffff_ffff_ffff_ffff,
    ensures
        resolve_contacts_spec(st, contacts).ids.len() == st.ids.len(),
        st.next <= resolve_contacts_spec(st, contacts).next <= st.next + contacts.len(),
        st.joined <= resolve_contacts_spec(st, contacts).joined <= st.joined + contacts.len(),
        st.merges.len() <= resolve_contacts_spec(st, contacts).merges.len() <= st.merges.len()
            + contacts.len(),
        forall|p: int|
            0 <= p < st.merges.len() ==> resolve_contacts_spec(st, contacts).merges[p]
                == st.merges[p],
        forall|k: int|
            0 <= k < st.ids.len() && st.ids[k] is Some ==> #[trigger] resolve_contacts_spec(
                st,
                contacts,
            ).ids[k] == st.ids[k],
        ids_wf(st.ids, st.next) ==> ids_wf(
            resolve_contacts_spec(st, contacts).ids,
            resolve_contacts_spec(st, contacts).next,
        ),
        forall|k: int|
            (0 <= k < st.ids.len() && st.ids[k] is None && (#[trigger] resolve_contacts_spec(
                st,
                contacts,
            ).ids[k]) is Some) ==> (st.next <= resolve_contacts_spec(st, contacts).ids[k].unwrap()
                < resolve_contacts_spec(st, contacts).next || exists|l: int|
                0 <= l < st.ids.len() && st.ids[l] == Some(
                    resolve_contacts_spec(st, contacts).ids[k].unwrap(),
                )),
        forall|p: int|
            st.merges.len() <= p < resolve_contacts_spec(st, contacts).merges.len() ==> ((
            #[trigger] resolve_contacts_spec(st, contacts).merges[p]).0 != resolve_contacts_spec(
                st,
                contacts,
            ).merges[p].1),
    decreases contacts.len(),
{
    if contacts.len() == 0 {
    } else {
        let st1 = resolve_contact_spec(st, contacts[0].0 as int, contacts[0].1 as int);
        lemma_step_invariants(st, contacts[0].0 as int, contacts[0].1 as int);
        lemma_pass_invariants(st1, contacts.skip(1));
        let r = resolve_contacts_spec(st, contacts);
        assert(r == resolve_contacts_spec(st1, contacts.skip(1)));
        assert forall|p: int| 0 <= p < st.merges.len() implies r.merges[p] == st.merges[p] by {
            assert(st1.merges[p] == st.merges[p]);
        }
        assert forall|k: int| 0 <= k < st.ids.len() && st.ids[k] is Some implies #[trigger] r.ids[k]
            == st.ids[k] by {
            assert(st1.ids[k] == st.ids[k]);
        }
        assert forall|p: int|
            st.merges.len() <= p < r.merges.len() implies ((#[trigger] r.merges[p]).0
            != r.merges[p].1) by {
            if p < st1.merges.len() {
                assert(r.merges[p] == st1.merges[p]);
            }
        }
        assert forall|k: int|
            (0 <= k < st.ids.len() && st.ids[k] is None && (#[trigger] r.ids[k]) is Some) implies (
        st.next <= r.ids[k].unwrap() < r.next || exists|l: int|
            0 <= l < st.ids.len() && st.ids[l] == Some(r.ids[k].unwrap())) by {
            if st1.ids[k] is Some {
                // the id appeared in the first contact of the list
                assert(st1.ids[k] == r.ids[k]);
                let id = r.ids[k].unwrap();
                if !(st.next <= id < r.next) {
                    let l = choose|l: int| 0 <= l < st.ids.len() && st.ids[l] == Some(id);
                    assert(st.ids[l] == Some(id));
                }
            } else {
                // the id appeared later in the list
                let id = r.ids[k].unwrap();
                if !(st1.next <= id < r.next) {
                    let l = choose|l: int| 0 <= l < st1.ids.len() && st1.ids[l] == Some(id);
                    if st.ids[l] is Some {
                        assert(st.ids[l] == Some(id));
                    }
                }
            }
        }
    }
}

/// The grouping pass applied to a whole contact list, from the state a
/// tick starts in.
pub open spec fn pass_result(s: Seq<Fish>, next: u64, contacts: Seq<(usize, usize)>) -> PassState {
    resolve_contacts_spec(initial_pass_state(s, next), contacts)
}

/// Process a tick's contact list: assign, propagate and collect merges,
/// exactly as `resolve_contacts_spec` folds `resolve_contact_spec` over
/// the list. Only `group_id` fields change; merge events are returned for
/// the second pass, together with the player-group join count.
pub fn resolve_contacts(
    fishes: &mut Vec<Fish>,
    next_group_id: &mut u64,
    contacts: &Vec<(usize, usize)>,
) -> (ev: GroupEvents)
    requires
        *old(next_group_id) + contacts@.len() <= u64::MAX,
    ensures
        final(fishes)@.len() == old(fishes)@.len(),
        forall|k: int|
            0 <= k < old(fishes)@.len() ==> #[trigger] final(fishes)@[k] == (Fish {
                group_id: pass_result(old(fishes)@, *old(next_group_id), contacts@).ids[k],
                ..old(fishes)@[k]
            }),
        *final(next_group_id) == pass_result(old(fishes)@, *old(next_group_id), contacts@).next,
        ev.merges@ == pass_result(old(fishes)@, *old(next_group_id), contacts@).merges,
        ev.joined_player == pass_result(old(fishes)@, *old(next_group_id), contacts@).joined,
{
    let ghost s0 = fishes@;
    let ghost n0 = *next_group_id;
    let mut merges: Vec<(u64, u64)> = Vec::new();
    let mut joined: u64 = 0;
    let mut t: usize = 0;
    while t < contacts.len()
        invariant
            t <= contacts@.len(),
            n0 + contacts@.len() <= u64::MAX,
            fishes@.len() == s0.len(),
            forall|k: int|
                0 <= k < s0.len() ==> #[trigger] fishes@[k] == (Fish {
                    group_id: pass_result(s0, n0, contacts@.take(t as int)).ids[k],
                    ..s0[k]
                }),
            *next_group_id == pass_result(s0, n0, contacts@.take(t as int)).next,
            merges@ == pass_result(s0, n0, contacts@.take(t as int)).merges,
            joined == pass_result(s0, n0, contacts@.take(t as int)).joined,
        decreases contacts@.len() - t,
    {
        let ghost st = pass_result(s0, n0, contacts@.take(t as int));
        proof {
            lemma_pass_invariants(initial_pass_state(s0, n0), contacts@.take(t as int));
            assert(contacts@.take(t as int + 1) =~= contacts@.take(t as int).push(
                contacts@[t as int],
            ));
            lemma_resolve_contacts_push(
                initial_pass_state(s0, n0),
                contacts@.take(t as int),
                contacts@[t as int],
            );
        }
        let ghost st1 = resolve_contact_spec(
            st,
            contacts@[t as int].0 as int,
            contacts@[t as int].1 as int,
        );
        proof {
            lemma_step_invariants(st, contacts@[t as int].0 as int, contacts@[t as int].1 as int);
        }
        let pair = contacts[t];
        let a = pair.0;
        let b = pair.1;
        if a < fishes.len() && b < fishes.len() && a != b {
            let ga = fishes[a].group_id;
            let gb = fishes[b].group_id;
            assert(ga == st.ids[a as int]);
            assert(gb == st.ids[b as int]);
            match (ga, gb) {
                (None, None) => {
                    let id = *next_group_id;
                    let mut fa = fishes[a];
                    fa.group_id = Some(id);
                    fishes[a] = fa;
                    let mut fb = fishes[b];
                    fb.group_id = Some(id);
                    fishes[b] = fb;
                    *next_group_id = id + 1;
                },
                (Some(id), None) => {
                    if id == PLAYER_GROUP_ID {
                        joined = joined + 1;
                    }
                    let mut fb = fishes[b];
                    fb.group_id = Some(id);
                    fishes[b] = fb;
                },
                (None, Some(id)) => {
                    if id == PLAYER_GROUP_ID {
                        joined = joined + 1;
                    }
                    let mut fa = fishes[a];
                    fa.group_id = Some(id);
                    fishes[a] = fa;
                },
                (Some(id1), Some(id2)) => {
                    if id1 != id2 {
                        if id1 == PLAYER_GROUP_ID || id2 == PLAYER_GROUP_ID {
                            joined = joined + 1;
                        }
                        merges.push((id1, id2));
                    }
                },
            }
        }
        assert forall|k: int| 0 <= k < s0.len() implies #[trigger] fishes@[k] == (Fish {
            group_id: st1.ids[k],
            ..s0[k]
        }) by {
            if k != a as int && k != b as int {
                assert(st1.ids[k] == st.ids[k]);
            }
        }
        t = t + 1;
    }
    proof {
        assert(contacts@.take(contacts@.len() as int) =~= contacts@);
    }
    GroupEvents { merges, joined_player: joined }
}

/// Two agents are within grouping range when their squared distance is
/// at most the squared grouping distance.
pub open spec fn in_group_range(a: Fish, b: Fish, gd: int) -> bool {
    norm2(
        a.position.x - b.position.x,
        a.position.y - b.position.y,
        a.position.z - b.position.z,
    ) <= gd * gd
}

/// The in-range pairs `(i, j)` for a fixed `i`, with `j` rising.
pub open spec fn row_pairs_spec(s: Seq<Fish>, gd: int, i: int, j: int) -> Seq<(usize, usize)>
    decreases s.len() - j,
{
    if j < 0 || j >= s.len() {
        Seq::empty()
    } else {
        let rest = row_pairs_spec(s, gd, i, j + 1);
        if 0 <= i < s.len() && in_group_range(s[i], s[j], gd) {
            seq![(i as usize, j as usize)] + rest
        } else {
            rest
        }
    }
}

/// All in-range pairs `(i, j)` with `i < j`, in ascending order of `i`
/// and then `j`: the order the direct proximity scan visits them in.
pub open spec fn proximity_pairs_spec(s: Seq<Fish>, gd: int, i: int) -> Seq<(usize, usize)>
    decreases s.len() - i,
{
    if i < 0 || i >= s.len() {
        Seq::empty()
    } else {
        row_pairs_spec(s, gd, i, i + 1) + proximity_pairs_spec(s, gd, i + 1)
    }
}

proof fn lemma_row_pairs_len(s: Seq<Fish>, gd: int, i: int, j: int)
    ensures
        row_pairs_spec(s, gd, i, j).len() <= if j < s.len() {
            s.len() - j
        } else {
            0
        },
    decreases s.len() - j,
{
    if 0 <= j < s.len() {
        lemma_row_pairs_len(s, gd, i, j + 1);
    }
}

/// The proximity scan yields fewer pairs than the square of the agent
/// count.
pub proof fn lemma_proximity_pairs_len(s: Seq<Fish>, gd: int, i: int)
    requires
        0 <= i <= s.len(),
    ensures
        proximity_pairs_spec(s, gd, i).len() <= (s.len() - i) * s.len(),
    decreases s.len() - i,
{
    if i < s.len() {
        lemma_row_pairs_len(s, gd, i, i + 1);
        lemma_proximity_pairs_len(s, gd, i + 1);
        assert((s.len() - i) * s.len() == s.len() + (s.len() - i - 1) * s.len())
            by (nonlinear_arith);
    } else {
        assert((s.len() - i) * s.len() == 0) by (nonlinear_arith)
            requires
                i == s.len(),
        ;
    }
}

/// The direct O(n^2) proximity scan: every unordered pair of agents whose
/// positions lie within `group_distance`, visited in index order.
pub fn collect_proximity_pairs(fishes: &Vec<Fish>, group_distance: i64) -> (pairs: Vec<
    (usize, usize),
>)
    requires
        0 <= group_distance,
        forall|k: int|
            0 <= k < fishes@.len() ==> (#[trigger] fishes@[k]).position.bounded(
                COORD_LIMIT as int,
            ),
    ensures
        pairs@ == proximity_pairs_spec(fishes@, group_distance as int, 0),
{
    let ghost s = fishes@;
    let ghost gd = group_distance as int;
    let ghost total = proximity_pairs_spec(s, gd, 0);
    let mut pairs: Vec<(usize, usize)> = Vec::new();
    let mut i: usize = 0;
    assert(pairs@ + proximity_pairs_spec(s, gd, 0) =~= total);
    while i < fishes.len()
        invariant
            i <= s.len(),
            fishes@ == s,
            gd == group_distance as int,
            0 <= gd,
            forall|k: int|
                0 <= k < s.len() ==> (#[trigger] s[k]).position.bounded(COORD_LIMIT as int),
            pairs@ + proximity_pairs_spec(s, gd, i as int) == total,
        decreases s.len() - i,
    {
        let mut j: usize = i + 1;
        assert(proximity_pairs_spec(s, gd, i as int) == row_pairs_spec(s, gd, i as int, i + 1)
            + proximity_pairs_spec(s, gd, i as int + 1));
        assert(pairs@ + row_pairs_spec(s, gd, i as int, i + 1) + proximity_pairs_spec(
            s,
            gd,
            i as int + 1,
        ) =~= total);
        while j < fishes.len()
            invariant
                i < s.len(),
                i < j <= s.len(),
                fishes@ == s,
                gd == group_distance as int,
                0 <= gd,
                forall|k: int|
                    0 <= k < s.len() ==> (#[trigger] s[k]).position.bounded(COORD_LIMIT as int),
                pairs@ + row_pairs_spec(s, gd, i as int, j as int) + proximity_pairs_spec(
                    s,
                    gd,
                    i as int + 1,
                ) == total,
            decreases s.len() - j,
        {
            let d2 = dist2(fishes[i].position, fishes[j].position);
            proof {
                crate::vec3::lemma_sq_bound(group_distance as int, i64::MAX as int);
            }
            let gd2: i128 = (group_distance as i128) * (group_distance as i128);
            if d2 <= gd2 {
                assert(in_group_range(s[i as int], s[j as int], gd));
                assert(row_pairs_spec(s, gd, i as int, j as int) == seq![(i, j)] + row_pairs_spec(
                    s,
                    gd,
                    i as int,
                    j as int + 1,
                ));
                pairs.push((i, j));
                assert(pairs@ + row_pairs_spec(s, gd, i as int, j as int + 1)
                    + proximity_pairs_spec(s, gd, i as int + 1) =~= total);
            } else {
                assert(!in_group_range(s[i as int], s[j as int], gd));
                assert(row_pairs_spec(s, gd, i as int, j as int) == row_pairs_spec(
                    s,
                    gd,
                    i as int,
                    j as int + 1,
                ));
            }
            j = j + 1;
        }
        assert(row_pairs_spec(s, gd, i as int, j as int) =~= Seq::<(usize, usize)>::empty());
        assert(pairs@ + proximity_pairs_spec(s, gd, i as int + 1) =~= total);
        i = i + 1;
    }
    assert(proximity_pairs_spec(s, gd, i as int) =~= Seq::<(usize, usize)>::empty());
    assert(pairs@ =~= total);
    pairs
}

/// One tick of the grouping engine in direct mode: scan all pairs for
/// proximity, then resolve the contacts in scan order.
pub fn group_by_proximity_system(
    fishes: &mut Vec<Fish>,
    next_group_id: &mut u64,
    cfg: &SimConfig,
) -> (ev: GroupEvents)
    requires
        0 <= cfg.group_distance,
        forall|k: int|
            0 <= k < old(fishes)@.len() ==> (#[trigger] old(fishes)@[k]).position.bounded(
                COORD_LIMIT as int,
            ),
        *old(next_group_id) + old(fishes)@.len() * old(fishes)@.len() <= u64::MAX,
    ensures
        final(fishes)@.len() == old(fishes)@.len(),
        forall|k: int|
            0 <= k < old(fishes)@.len() ==> #[trigger] final(fishes)@[k] == (Fish {
                group_id: pass_result(
                    old(fishes)@,
                    *old(next_group_id),
                    proximity_pairs_spec(old(fishes)@, cfg.group_distance as int, 0),
                ).ids[k],
                ..old(fishes)@[k]
            }),
        *final(next_group_id) == pass_result(
            old(fishes)@,
            *old(next_group_id),
            proximity_pairs_spec(old(fishes)@, cfg.group_distance as int, 0),
        ).next,
        ev.merges@ == pass_result(
            old(fishes)@,
            *old(next_group_id),
            proximity_pairs_spec(old(fishes)@, cfg.group_distance as int, 0),
        ).merges,
        ev.joined_player == pass_result(
            old(fishes)@,
            *old(next_group_id),
            proximity_pairs_spec(old(fishes)@, cfg.group_distance as int, 0),
        ).joined,
{
    let pairs = collect_proximity_pairs(fishes, cfg.group_distance);
    proof {
        lemma_proximity_pairs_len(fishes@, cfg.group_distance as int, 0);
        assert(fishes@.len() * fishes@.len() >= 0) by (nonlinear_arith);
    }
    resolve_contacts(fishes, next_group_id, &pairs)
}

/// The same structural facts, for a single contact.
proof fn lemma_step_invariants(st: PassState, i: int, j: int)
    requires
        0 <= st.next,
        st.next + 1 <= 0xffff_ffff_ffff_ffff,
    ensures
        resolve_contact_spec(st, i, j).ids.len() == st.ids.len(),
        st.next <= resolve_contact_spec(st, i, j).next <= st.next + 1,
        st.joined <= resolve_contact_spec(st, i, j).joined <= st.joined + 1,
        st.merges.len() <= resolve_contact_spec(st, i, j).merges.len() <= st.merges.len() + 1,
        forall|p: int|
            0 <= p < st.merges.len() ==> resolve_contact_spec(st, i, j).merges[p] == st.merges[p],
        forall|k: int|
            0 <= k < st.ids.len() && st.ids[k] is Some ==> #[trigger] resolve_contact_spec(
                st,
                i,
                j,
            ).ids[k] == st.ids[k],
        ids_wf(st.ids, st.next) ==> ids_wf(
            resolve_contact_spec(st, i, j).ids,
            resolve_contact_spec(st, i, j).next,
        ),
        forall|k: int|
            (0 <= k < st.ids.len() && st.ids[k] is None && (#[trigger] resolve_contact_spec(
                st,
                i,
                j,
            ).ids[k]) is Some) ==> (st.next <= resolve_contact_spec(st, i, j).ids[k].unwrap()
                < resolve_contact_spec(st, i, j).next || exists|l: int|
                0 <= l < st.ids.len() && st.ids[l] == Some(
                    resolve_contact_spec(st, i, j).ids[k].unwrap(),
                )),
        forall|p: int|
            st.merges.len() <= p < resolve_contact_spec(st, i, j).merges.len() ==> ((
            #[trigger] resolve_contact_spec(st, i, j).merges[p]).0 != resolve_contact_spec(
                st,
                i,
                j,
            ).merges[p].1),
{
    let st1 = resolve_contact_spec(st, i, j);
    if 0 <= i < st.ids.len() && 0 <= j < st.ids.len() && i != j {
        match (st.ids[i], st.ids[j]) {
            (None, None) => {
                assert(st1.ids[i] == Some(st.next as u64));
                assert(st1.ids[j] == Some(st.next as u64));
                assert(st.next as u64 as int == st.next);
                assert(ids_wf(st.ids, st.next) ==> ids_wf(st1.ids, st1.next)) by {
                    if ids_wf(st.ids, st.next) {
                        assert forall|k: int|
                            0 <= k < st1.ids.len() implies (#[trigger] st1.ids[k] matches Some(id)
                            ==> id < st1.next) by {
                            if k != i && k != j {
                                assert(st1.ids[k] == st.ids[k]);
                            }
                        }
                    }
                }
            },
            (Some(id0), None) => {
                assert(st1.ids[j] == Some(id0));
                assert(ids_wf(st.ids, st.next) ==> ids_wf(st1.ids, st1.next)) by {
                    if ids_wf(st.ids, st.next) {
                        assert forall|k: int|
                            0 <= k < st1.ids.len() implies (#[trigger] st1.ids[k] matches Some(id)
                            ==> id < st1.next) by {
                            if k != j {
                                assert(st1.ids[k] == st.ids[k]);
                            }
                        }
                    }
                }
                assert(st.ids[i] == Some(id0));
            },
            (None, Some(id0)) => {
                assert(st1.ids[i] == Some(id0));
                assert(ids_wf(st.ids, st.next) ==> ids_wf(st1.ids, st1.next)) by {
                    if ids_wf(st.ids, st.next) {
                        assert forall|k: int|
                            0 <= k < st1.ids.len() implies (#[trigger] st1.ids[k] matches Some(id)
                            ==> id < st1.next) by {
                            if k != i {
                                assert(st1.ids[k] == st.ids[k]);
                            }
                        }
                    }
                }
                assert(st.ids[j] == Some(id0));
            },
            (Some(id1), Some(id2)) => {
                if id1 != id2 {
                    assert(st1.merges.last() == (id1, id2));
                }
            },
        }
    }
}


/// The replacement mapping a tick's merge events build: each pair maps
/// its greater id to its lesser one; a later pair overwrites an earlier
/// one keyed on the same greater id.
pub open spec fn merge_map_spec(merges: Seq<(u64, u64)>) -> Map<u64, u64>
    decreases merges.len(),
{
    if merges.len() == 0 {
        Map::empty()
    } else {
        let p = merges.last();
        let hi = if p.0 >= p.1 {
            p.0
        } else {
            p.1
        };
        let lo = if p.0 >= p.1 {
            p.1
        } else {
            p.0
        };
        merge_map_spec(merges.drop_last()).insert(hi, lo)
    }
}

/// What the merge pass does to one agent's group id: an id keyed in the
/// replacement mapping is replaced, every other id (and `None`) is kept.
pub open spec fn apply_merge_spec(m: Map<u64, u64>, g: Option<u64>) -> Option<u64> {
    match g {
        None => None,
        Some(id) => if m.contains_key(id) {
            Some(m[id])
        } else {
            Some(id)
        },
    }
}

/// The entry a mapping holds for a key, as an option.
pub open spec fn lookup_opt(m: Map<u64, u64>, id: u64) -> Option<u64> {
    if m.contains_key(id) {
        Some(m[id])
    } else {
        None
    }
}

/// Replacement id for `id` under this tick's merge events, if any:
/// the lesser side of the last event whose greater side is `id`.
pub fn merge_lookup(merges: &Vec<(u64, u64)>, id: u64) -> (r: Option<u64>)
    ensures
        r == lookup_opt(merge_map_spec(merges@), id),
{
    let ghost full = merge_map_spec(merges@);
    let mut t: usize = merges.len();
    proof {
        assert(merges@.take(merges@.len() as int) =~= merges@);
    }
    while t > 0
        invariant
            t <= merges@.len(),
            full == merge_map_spec(merges@),
            lookup_opt(full, id) == lookup_opt(merge_map_spec(merges@.take(t as int)), id),
        decreases t,
    {
        let pair = merges[t - 1];
        let hi = if pair.0 >= pair.1 {
            pair.0
        } else {
            pair.1
        };
        let lo = if pair.0 >= pair.1 {
            pair.1
        } else {
            pair.0
        };
        proof {
            assert(merges@.take(t as int).drop_last() =~= merges@.take(t as int - 1));
            assert(merges@.take(t as int).last() == merges@[t as int - 1]);
        }
        if hi == id {
            return Some(lo);
        }
        t = t - 1;
    }
    proof {
        assert(merges@.take(0) =~= Seq::<(u64, u64)>::empty());
    }
    None
}

/// The merge-resolution pass: apply the tick's batched merge events to
/// every agent's group id in one sweep. Nothing but group ids changes,
/// and each id changes exactly as `apply_merge_spec` says.
pub fn merge_groups_system(fishes: &mut Vec<Fish>, merges: &Vec<(u64, u64)>)
    ensures
        final(fishes)@.len() == old(fishes)@.len(),
        forall|k: int|
            0 <= k < old(fishes)@.len() ==> #[trigger] final(fishes)@[k] == (Fish {
                group_id: apply_merge_spec(
                    merge_map_spec(merges@),
                    old(fishes)@[k].group_id,
                ),
                ..old(fishes)@[k]
            }),
{
    let ghost s0 = fishes@;
    let mut k: usize = 0;
    while k < fishes.len()
        invariant
            k <= s0.len(),
            fishes@.len() == s0.len(),
            forall|p: int|
                0 <= p < k ==> #[trigger] fishes@[p] == (Fish {
                    group_id: apply_merge_spec(merge_map_spec(merges@), s0[p].group_id),
                    ..s0[p]
                }),
            forall|p: int| k <= p < s0.len() ==> #[trigger] fishes@[p] == s0[p],
        decreases s0.len() - k,
    {
        let g = fishes[k].group_id;
        match g {
            Some(id) => {
                match merge_lookup(merges, id) {
                    Some(nid) => {
                        let mut f = fishes[k];
                        f.group_id = Some(nid);
                        fishes[k] = f;
                    },
                    None => {
                        assert(apply_merge_spec(merge_map_spec(merges@), s0[k as int].group_id)
                            is None || apply_merge_spec(
                            merge_map_spec(merges@),
                            s0[k as int].group_id,
                        ) == Some(id));
                    },
                }
            },
            None => {},
        }
        k = k + 1;
    }
}


/// No merge event names the same id on both sides.
pub open spec fn distinct_pairs(merges: Seq<(u64, u64)>) -> bool {
    forall|p: int| 0 <= p < merges.len() ==> (#[trigger] merges[p]).0 != merges[p].1
}

/// Under distinct merge events, every replacement strictly lowers the id.
pub proof fn lemma_merge_map_lowers(merges: Seq<(u64, u64)>)
    requires
        distinct_pairs(merges),
    ensures
        forall|id: u64| #[trigger]
            merge_map_spec(merges).contains_key(id) ==> merge_map_spec(merges)[id] < id,
    decreases merges.len(),
{
    if merges.len() > 0 {
        assert(distinct_pairs(merges.drop_last())) by {
            assert(forall|p: int|
                0 <= p < merges.drop_last().len() ==> merges.drop_last()[p] == #[trigger] merges[p]);
        }
        lemma_merge_map_lowers(merges.drop_last());
        let p = merges.last();
        let hi = if p.0 >= p.1 { p.0 } else { p.1 };
        let lo = if p.0 >= p.1 { p.1 } else { p.0 };
        assert(merges[merges.len() - 1].0 != merges[merges.len() - 1].1);
        assert(lo < hi);
        let prev = merge_map_spec(merges.drop_last());
        assert(merge_map_spec(merges) == prev.insert(hi, lo));
        assert forall|id: u64| #[trigger]
            merge_map_spec(merges).contains_key(id) implies merge_map_spec(merges)[id] < id by {
            if id != hi {
                assert(prev.contains_key(id));
            }
        }
    }
}

/// A merge pass never raises an agent's id, and never turns a grouped
/// agent ungrouped (or the other way round).
pub proof fn lemma_merge_monotone(merges: Seq<(u64, u64)>, g: Option<u64>)
    requires
        distinct_pairs(merges),
    ensures
        g is Some <==> apply_merge_spec(merge_map_spec(merges), g) is Some,
        g matches Some(id) ==> apply_merge_spec(merge_map_spec(merges), g).unwrap() <= id,
{
    lemma_merge_map_lowers(merges);
}

/// Player-group sentinel stability, one pass: an agent in group 0 is
/// still in group 0 after any batch of distinct merge events, since the
/// mapping keys on the greater id of each pair.
pub proof fn lemma_player_sentinel_one_pass(merges: Seq<(u64, u64)>)
    requires
        distinct_pairs(merges),
    ensures
        apply_merge_spec(merge_map_spec(merges), Some(PLAYER_GROUP_ID)) == Some(PLAYER_GROUP_ID),
{
    lemma_merge_map_lowers(merges);
}

/// Iterated merge passes, one batch of events per tick.
pub open spec fn apply_merge_passes(g: Option<u64>, passes: Seq<Seq<(u64, u64)>>) -> Option<u64>
    decreases passes.len(),
{
    if passes.len() == 0 {
        g
    } else {
        apply_merge_passes(apply_merge_spec(merge_map_spec(passes[0]), g), passes.skip(1))
    }
}

/// Player-group sentinel stability: once an agent's id has resolved to
/// the reserved group 0, no sequence of further merge passes moves it
/// away.
pub proof fn lemma_player_sentinel_stable(passes: Seq<Seq<(u64, u64)>>)
    requires
        forall|q: int| 0 <= q < passes.len() ==> distinct_pairs(#[trigger] passes[q]),
    ensures
        apply_merge_passes(Some(PLAYER_GROUP_ID), passes) == Some(PLAYER_GROUP_ID),
    decreases passes.len(),
{
    if passes.len() > 0 {
        lemma_player_sentinel_one_pass(passes[0]);
        assert(forall|q: int|
            0 <= q < passes.skip(1).len() ==> #[trigger] passes.skip(1)[q] == passes[q + 1]);
        lemma_player_sentinel_stable(passes.skip(1));
    }
}

/// The least id seen along a chain of group ids.
pub open spec fn chain_min(c: Seq<u64>) -> u64
    decreases c.len(),
{
    if c.len() == 0 {
        0
    } else if c.len() == 1 {
        c[0]
    } else {
        let m = chain_min(c.drop_last());
        if c.last() < m {
            c.last()
        } else {
            m
        }
    }
}

/// One pairwise merge of the groups `a` and `b`, applied to one id.
pub open spec fn merge_step_spec(g: Option<u64>, a: u64, b: u64) -> Option<u64> {
    apply_merge_spec(merge_map_spec(seq![(a, b)]), g)
}

/// A single pairwise merge rewrites the greater id to the lesser one and
/// leaves every other id alone.
pub proof fn lemma_merge_step_unfold(g: Option<u64>, a: u64, b: u64)
    ensures
        merge_step_spec(g, a, b) == (match g {
            None => None::<u64>,
            Some(id) => if id == (if a >= b { a } else { b }) {
                Some(if a >= b { b } else { a })
            } else {
                Some(id)
            },
        }),
{
    reveal_with_fuel(merge_map_spec, 3);
    let s = seq![(a, b)];
    assert(s.last() == (a, b));
    assert(s.drop_last() =~= Seq::<(u64, u64)>::empty());
    let hi = if a >= b { a } else { b };
    let lo = if a >= b { b } else { a };
    assert(merge_map_spec(s) == Map::<u64, u64>::empty().insert(hi, lo));
}

/// A chain of pairwise merges: tick by tick, the component built so far
/// (already holding the least id seen, `chain_min` of the prefix) merges
/// with the group holding the next id of the chain.
pub open spec fn apply_chain(g: Option<u64>, c: Seq<u64>) -> Option<u64>
    decreases c.len(),
{
    if c.len() <= 1 {
        g
    } else {
        merge_step_spec(apply_chain(g, c.drop_last()), chain_min(c.drop_last()), c.last())
    }
}

/// The least id of a chain is one of its ids, and below all of them.
pub proof fn lemma_chain_min_is_elem(c: Seq<u64>)
    requires
        c.len() >= 1,
    ensures
        exists|i: int| 0 <= i < c.len() && c[i] == chain_min(c),
        forall|i: int| 0 <= i < c.len() ==> chain_min(c) <= #[trigger] c[i],
    decreases c.len(),
{
    if c.len() == 1 {
        assert(c[0] == chain_min(c));
    } else {
        lemma_chain_min_is_elem(c.drop_last());
        let dl = c.drop_last();
        assert(forall|i: int| 0 <= i < dl.len() ==> #[trigger] dl[i] == c[i]);
        let j = choose|i: int| 0 <= i < dl.len() && dl[i] == chain_min(dl);
        if c.last() < chain_min(dl) {
            assert(c[c.len() - 1] == chain_min(c));
        } else {
            assert(c[j] == chain_min(c));
        }
        assert forall|i: int| 0 <= i < c.len() implies chain_min(c) <= #[trigger] c[i] by {
            if i < dl.len() {
                assert(chain_min(dl) <= dl[i]);
            }
        }
    }
}

/// An id that appears nowhere in a chain is untouched by its merges.
pub proof fn lemma_chain_untouched(x: u64, c: Seq<u64>)
    requires
        forall|i: int| 0 <= i < c.len() ==> #[trigger] c[i] != x,
    ensures
        apply_chain(Some(x), c) == Some(x),
    decreases c.len(),
{
    if c.len() <= 1 {
    } else {
        let dl = c.drop_last();
        assert(forall|i: int| 0 <= i < dl.len() ==> #[trigger] dl[i] == c[i] && dl[i] != x);
        lemma_chain_untouched(x, dl);
        lemma_chain_min_is_elem(dl);
        let j = choose|i: int| 0 <= i < dl.len() && dl[i] == chain_min(dl);
        assert(chain_min(dl) != x);
        assert(c[c.len() - 1] != x);
        lemma_merge_step_unfold(Some(x), chain_min(dl), c.last());
    }
}

/// Grouping is eventually consistent under merges: for any chain of
/// pairwise merges over distinct group ids, an agent holding any id of
/// the chain ends up with the least id of the chain — the final
/// canonical id of the whole connected component.
pub proof fn lemma_merge_chain_consistent(c: Seq<u64>, i0: int)
    requires
        c.len() >= 1,
        0 <= i0 < c.len(),
        forall|p: int, q: int| 0 <= p < q < c.len() ==> #[trigger] c[p] != #[trigger] c[q],
    ensures
        apply_chain(Some(c[i0]), c) == Some(chain_min(c)),
    decreases c.len(),
{
    if c.len() == 1 {
    } else {
        let dl = c.drop_last();
        let x = c.last();
        let a = chain_min(dl);
        lemma_chain_min_is_elem(dl);
        assert(forall|p: int, q: int|
            0 <= p < q < dl.len() ==> #[trigger] dl[p] != #[trigger] dl[q]);
        assert(forall|i: int| 0 <= i < dl.len() ==> #[trigger] dl[i] == c[i]);
        let j = choose|i: int| 0 <= i < dl.len() && dl[i] == a;
        assert(c[j] == a);
        assert(c[j] != c[c.len() - 1]);
        assert(a != x);
        if i0 < dl.len() {
            lemma_merge_chain_consistent(dl, i0);
            assert(dl[i0] == c[i0]);
            assert(apply_chain(Some(c[i0]), dl) == Some(a));
        } else {
            assert(c[i0] == x);
            assert(forall|i: int| 0 <= i < dl.len() ==> #[trigger] dl[i] != x);
            lemma_chain_untouched(x, dl);
            assert(apply_chain(Some(c[i0]), dl) == Some(x));
        }
        lemma_merge_step_unfold(apply_chain(Some(c[i0]), dl), a, x);
        assert(chain_min(c) == if x < a { x } else { a });
    }
}


/// How many agents currently hold the player's group id.
pub open spec fn count_player_members(ids: Seq<Option<u64>>) -> int
    decreases ids.len(),
{
    if ids.len() == 0 {
        0
    } else {
        count_player_members(ids.drop_last()) + if ids.last() == Some(PLAYER_GROUP_ID) {
            1int
        } else {
            0int
        }
    }
}

/// How many merge events name the player's group on either side.
pub open spec fn count_player_merges(merges: Seq<(u64, u64)>) -> int
    decreases merges.len(),
{
    if merges.len() == 0 {
        0
    } else {
        count_player_merges(merges.drop_last()) + if merges.last().0 == PLAYER_GROUP_ID
            || merges.last().1 == PLAYER_GROUP_ID {
            1int
        } else {
            0int
        }
    }
}

proof fn lemma_count_members_update(ids: Seq<Option<u64>>, k: int, g: Option<u64>)
    requires
        0 <= k < ids.len(),
    ensures
        count_player_members(ids.update(k, g)) == count_player_members(ids) - (if ids[k] == Some(
            PLAYER_GROUP_ID,
        ) {
            1int
        } else {
            0int
        }) + (if g == Some(PLAYER_GROUP_ID) {
            1int
        } else {
            0int
        }),
    decreases ids.len(),
{
    let u = ids.update(k, g);
    if k == ids.len() - 1 {
        assert(u.drop_last() =~= ids.drop_last());
        assert(u.last() == g);
    } else {
        assert(u.drop_last() =~= ids.drop_last().update(k, g));
        assert(u.last() == ids.last());
        lemma_count_members_update(ids.drop_last(), k, g);
        assert(ids.drop_last()[k] == ids[k]);
    }
}

proof fn lemma_joined_step(st: PassState, i: int, j: int)
    requires
        1 <= st.next,
        st.next + 1 <= 0xffff_ffff_ffff_ffff,
    ensures
        resolve_contact_spec(st, i, j).joined - st.joined <= (count_player_members(
            resolve_contact_spec(st, i, j).ids,
        ) - count_player_members(st.ids)) + (count_player_merges(
            resolve_contact_spec(st, i, j).merges,
        ) - count_player_merges(st.merges)),
{
    let st1 = resolve_contact_spec(st, i, j);
    if 0 <= i < st.ids.len() && 0 <= j < st.ids.len() && i != j {
        match (st.ids[i], st.ids[j]) {
            (None, None) => {
                assert(st.next as u64 != PLAYER_GROUP_ID);
                lemma_count_members_update(st.ids, i, Some(st.next as u64));
                lemma_count_members_update(
                    st.ids.update(i, Some(st.next as u64)),
                    j,
                    Some(st.next as u64),
                );
                assert(st.ids.update(i, Some(st.next as u64))[j] == st.ids[j]);
            },
            (Some(id0), None) => {
                lemma_count_members_update(st.ids, j, Some(id0));
            },
            (None, Some(id0)) => {
                lemma_count_members_update(st.ids, i, Some(id0));
            },
            (Some(id1), Some(id2)) => {
                if id1 != id2 {
                    assert(st1.merges.drop_last() =~= st.merges);
                    assert(st1.merges.last() == (id1, id2));
                }
            },
        }
    }
}

/// Join events are matched by membership growth: over a tick's contact
/// list, the player-group join count rises by at most the number of
/// agents that newly entered the player's group in the assignment pass
/// plus the number of merge events naming the player's group that were
/// handed to the merge pass. The count starts from zero each tick, so a
/// tick's events never carry over into the next one.
pub proof fn lemma_joined_at_most_entries(st: PassState, contacts: Seq<(usize, usize)>)
    requires
        1 <= st.next,
        st.next + contacts.len() <= 0xffff_ffff_ffff_ffff,
    ensures
        resolve_contacts_spec(st, contacts).joined - st.joined <= (count_player_members(
            resolve_contacts_spec(st, contacts).ids,
        ) - count_player_members(st.ids)) + (count_player_merges(
            resolve_contacts_spec(st, contacts).merges,
        ) - count_player_merges(st.merges)),
    decreases contacts.len(),
{
    if contacts.len() > 0 {
        let st1 = resolve_contact_spec(st, contacts[0].0 as int, contacts[0].1 as int);
        lemma_joined_step(st, contacts[0].0 as int, contacts[0].1 as int);
        lemma_step_invariants(st, contacts[0].0 as int, contacts[0].1 as int);
        lemma_joined_at_most_entries(st1, contacts.skip(1));
    }
}

} // verus!
