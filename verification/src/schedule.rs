//! The order of work inside one time step: every body meets every field,
//! then every unordered pair of bodies meets once, then every body is
//! integrated. The schedule speaks of bodies by their handles only.

use vstd::prelude::*;

verus! {

/// One unit of work of a time step.
#[derive(Clone, Copy, Debug, PartialEq, Eq, Structural)]
pub enum Action {
    /// Let the field at this index act on the particle, if it reaches it.
    Gather { particle: u64, field: usize },
    /// Let the two particles meet.
    Interact { first: u64, second: u64 },
    /// Turn the particle's accumulated force into motion and clear it.
    Integrate { particle: u64 },
}

/// How many pairs have their first member before position `a`, among `n`
/// bodies.
pub open spec fn row_start(n: int, a: int) -> int
    decreases a,
{
    if a <= 0 {
        0
    } else {
        row_start(n, a - 1) + (n - a)
    }
}

/// The place in the schedule of the pair of positions `i < j`.
pub open spec fn slot(n: int, i: int, j: int) -> int {
    row_start(n, i) + (j - i - 1)
}

/// The pairs whose first member stands at position `a`, by rising second
/// member.
pub open spec fn pair_row(ids: Seq<u64>, a: int) -> Seq<(u64, u64)> {
    Seq::new((ids.len() - 1 - a) as nat, |k: int| (ids[a], ids[a + 1 + k]))
}

/// The pairs whose first member stands before position `a`.
pub open spec fn pairs_before(ids: Seq<u64>, a: int) -> Seq<(u64, u64)>
    decreases a,
{
    if a <= 0 {
        Seq::empty()
    } else {
        pairs_before(ids, a - 1) + pair_row(ids, a - 1)
    }
}

/// The pairwise pass over `ids`.
pub open spec fn all_pairs(ids: Seq<u64>) -> Seq<(u64, u64)> {
    pairs_before(ids, ids.len() as int)
}

/// One body meeting each of `fields` fields, by rising index.
pub open spec fn gather_row(id: u64, fields: usize) -> Seq<Action> {
    Seq::new(fields as nat, |f: int| Action::Gather { particle: id, field: f as usize })
}

/// The field work of the bodies before position `a`.
pub open spec fn gathers_before(ids: Seq<u64>, fields: usize, a: int) -> Seq<Action>
    decreases a,
{
    if a <= 0 {
        Seq::empty()
    } else {
        gathers_before(ids, fields, a - 1) + gather_row(ids[a - 1], fields)
    }
}

/// The pairwise pass as actions.
pub open spec fn interactions(ids: Seq<u64>) -> Seq<Action> {
    Seq::new(
        all_pairs(ids).len(),
        |p: int| Action::Interact { first: all_pairs(ids)[p].0, second: all_pairs(ids)[p].1 },
    )
}

/// The closing pass: each body once, in the order of `ids`.
pub open spec fn integrations(ids: Seq<u64>) -> Seq<Action> {
    Seq::new(ids.len(), |a: int| Action::Integrate { particle: ids[a] })
}

/// Everything that adds to force accumulators.
pub open spec fn force_actions(ids: Seq<u64>, fields: usize) -> Seq<Action> {
    gathers_before(ids, fields, ids.len() as int) + interactions(ids)
}

/// A whole time step.
pub open spec fn step_actions(ids: Seq<u64>, fields: usize) -> Seq<Action> {
    force_actions(ids, fields) + integrations(ids)
}

/// Lists every unordered pair of `ids` once: the body at each position with
/// each body after it.
pub fn pair_schedule(ids: &Vec<u64>) -> (pairs: Vec<(u64, u64)>)
    ensures
        pairs@ == all_pairs(ids@),
{
    let n: usize = ids.len();
    let mut pairs: Vec<(u64, u64)> = Vec::new();
    let mut a: usize = 0;
    while a < n
        invariant
            n == ids.len(),
            a <= n,
            pairs@ == pairs_before(ids@, a as int),
        decreases n - a,
    {
        let mut b: usize = a + 1;
        while b < n
            invariant
                n == ids.len(),
                a < n,
                a < b <= n,
                pairs@ == pairs_before(ids@, a as int) + Seq::new(
                    (b - a - 1) as nat,
                    |k: int| (ids@[a as int], ids@[a + 1 + k]),
                ),
            decreases n - b,
        {
            pairs.push((ids[a], ids[b]));
            b = b + 1;
            assert(pairs@ =~= pairs_before(ids@, a as int) + Seq::new(
                (b - a - 1) as nat,
                |k: int| (ids@[a as int], ids@[a + 1 + k]),
            ));
        }
        assert(Seq::new((b - a - 1) as nat, |k: int| (ids@[a as int], ids@[a + 1 + k]))
            =~= pair_row(ids@, a as int));
        a = a + 1;
    }
    pairs
}

/// Lists the force work of a step: body by body the fields `0..fields`,
/// then the pairwise pass.
pub fn plan_forces(ids: &Vec<u64>, fields: usize) -> (plan: Vec<Action>)
    ensures
        plan@ == force_actions(ids@, fields),
{
    let n: usize = ids.len();
    let mut plan: Vec<Action> = Vec::new();
    let mut a: usize = 0;
    while a < n
        invariant
            n == ids.len(),
            a <= n,
            plan@ == gathers_before(ids@, fields, a as int),
        decreases n - a,
    {
        let mut f: usize = 0;
        while f < fields
            invariant
                n == ids.len(),
                a < n,
                f <= fields,
                plan@ == gathers_before(ids@, fields, a as int) + gather_row(
                    ids@[a as int],
                    f,
                ),
            decreases fields - f,
        {
            plan.push(Action::Gather { particle: ids[a], field: f });
            f = f + 1;
            assert(plan@ =~= gathers_before(ids@, fields, a as int) + gather_row(
                ids@[a as int],
                f,
            ));
        }
        a = a + 1;
    }
    let pairs = pair_schedule(ids);
    let ghost gathered = plan@;
    let mut p: usize = 0;
    while p < pairs.len()
        invariant
            p <= pairs.len(),
            pairs@ == all_pairs(ids@),
            gathered == gathers_before(ids@, fields, ids@.len() as int),
            plan@ == gathered + interactions(ids@).take(p as int),
        decreases pairs.len() - p,
    {
        let pair = pairs[p];
        plan.push(Action::Interact { first: pair.0, second: pair.1 });
        p = p + 1;
        assert(plan@ =~= gathered + interactions(ids@).take(p as int));
    }
    assert(interactions(ids@).take(p as int) =~= interactions(ids@));
    plan
}

/// Lists a whole step: the force work, then one integration per body.
pub fn plan_step(ids: &Vec<u64>, fields: usize) -> (plan: Vec<Action>)
    ensures
        plan@ == step_actions(ids@, fields),
{
    let mut plan = plan_forces(ids, fields);
    let ghost forces = plan@;
    let mut a: usize = 0;
    while a < ids.len()
        invariant
            a <= ids.len(),
            forces == force_actions(ids@, fields),
            plan@ == forces + integrations(ids@).take(a as int),
        decreases ids.len() - a,
    {
        plan.push(Action::Integrate { particle: ids[a] });
        a = a + 1;
        assert(plan@ =~= forces + integrations(ids@).take(a as int));
    }
    assert(integrations(ids@).take(a as int) =~= integrations(ids@));
    plan
}

/// Rows of pairs follow each other without gaps: the count of pairs before
/// a position never falls as the position rises.
pub proof fn lemma_row_start_rises(n: int, i: int, a: int)
    requires
        0 <= i <= a <= n,
    ensures
        row_start(n, i) <= row_start(n, a),
    decreases a - i,
{
    if i < a {
        lemma_row_start_rises(n, i, a - 1);
    }
}

/// The pair of positions `i < j` lies inside the pass.
pub proof fn lemma_slot_in_range(n: int, i: int, j: int)
    requires
        0 <= i < j < n,
    ensures
        0 <= slot(n, i, j) < row_start(n, n),
{
    lemma_row_start_rises(n, 0, i);
    lemma_row_start_rises(n, i + 1, n);
}

/// Two different pairs of positions never share a place in the pass.
pub proof fn lemma_slot_injective(n: int, i: int, j: int, k: int, l: int)
    requires
        0 <= i < j < n,
        0 <= k < l < n,
        slot(n, i, j) == slot(n, k, l),
    ensures
        i == k,
        j == l,
{
    if i < k {
        lemma_row_start_rises(n, i + 1, k);
    }
    if k < i {
        lemma_row_start_rises(n, k + 1, i);
    }
}

/// Every place in the pass belongs to a pair of positions `i < j`.
pub proof fn lemma_slot_surjective(n: int, a: int, p: int) -> (pair: (int, int))
    requires
        0 <= a <= n,
        0 <= p < row_start(n, a),
    ensures
        0 <= pair.0 < pair.1 < n,
        pair.0 < a,
        slot(n, pair.0, pair.1) == p,
    decreases a,
{
    if p < row_start(n, a - 1) {
        lemma_slot_surjective(n, a - 1, p)
    } else {
        (a - 1, p - row_start(n, a - 1) + a)
    }
}

/// The pass over the first `a` rows holds, at the place of each pair of
/// positions, the handles at those two positions.
pub proof fn lemma_pairs_before_slots(ids: Seq<u64>, a: int)
    requires
        0 <= a <= ids.len(),
    ensures
        pairs_before(ids, a).len() == row_start(ids.len() as int, a),
        forall|i: int, j: int|
            0 <= i < a && i < j < ids.len() ==> {
                &&& 0 <= #[trigger] slot(ids.len() as int, i, j) < pairs_before(ids, a).len()
                &&& pairs_before(ids, a)[slot(ids.len() as int, i, j)] == (ids[i], ids[j])
            },
    decreases a,
{
    let n = ids.len() as int;
    if a > 0 {
        lemma_pairs_before_slots(ids, a - 1);
        assert forall|i: int, j: int| 0 <= i < a && i < j < n implies {
            &&& 0 <= #[trigger] slot(n, i, j) < pairs_before(ids, a).len()
            &&& pairs_before(ids, a)[slot(n, i, j)] == (ids[i], ids[j])
        } by {
            let head = pairs_before(ids, a - 1);
            let row = pair_row(ids, a - 1);
            assert(pairs_before(ids, a) == head + row);
            assert(row_start(n, i + 1) == row_start(n, i) + (n - (i + 1)));
            lemma_row_start_rises(n, 0, i);
            assert(head.len() == row_start(n, a - 1));
            if i < a - 1 {
                lemma_row_start_rises(n, i + 1, a - 1);
                assert((head + row)[slot(n, i, j)] == head[slot(n, i, j)]);
            } else {
                assert(slot(n, i, j) == head.len() + (j - a));
                assert((head + row)[slot(n, i, j)] == row[j - a]);
                assert(row[j - a] == (ids[a - 1], ids[j]));
            }
        }
    }
}

/// Every unordered pair is visited: the handles at positions `i < j` meet
/// at their place in the pass.
pub proof fn lemma_pair_is_scheduled(ids: Seq<u64>, i: int, j: int)
    requires
        0 <= i < j < ids.len(),
    ensures
        0 <= slot(ids.len() as int, i, j) < all_pairs(ids).len(),
        all_pairs(ids)[slot(ids.len() as int, i, j)] == (ids[i], ids[j]),
{
    lemma_pairs_before_slots(ids, ids.len() as int);
    lemma_slot_in_range(ids.len() as int, i, j);
}

/// Nothing else is visited: each entry of the pass is the pair of handles
/// at two positions `i < j`, and `p` is the place of that pair.
pub proof fn lemma_entry_is_a_pair(ids: Seq<u64>, p: int) -> (pair: (int, int))
    requires
        0 <= p < all_pairs(ids).len(),
    ensures
        0 <= pair.0 < pair.1 < ids.len(),
        slot(ids.len() as int, pair.0, pair.1) == p,
        all_pairs(ids)[p] == (ids[pair.0], ids[pair.1]),
{
    let n = ids.len() as int;
    lemma_pairs_before_slots(ids, n);
    let pair = lemma_slot_surjective(n, n, p);
    assert(0 <= slot(n, pair.0, pair.1) < pairs_before(ids, n).len());
    pair
}

/// Among distinct handles no body meets itself.
pub proof fn lemma_no_self_pair(ids: Seq<u64>, p: int)
    requires
        ids.no_duplicates(),
        0 <= p < all_pairs(ids).len(),
    ensures
        all_pairs(ids)[p].0 != all_pairs(ids)[p].1,
{
    let pair = lemma_entry_is_a_pair(ids, p);
}

/// Among distinct handles no pair is visited twice, in either order of its
/// members.
pub proof fn lemma_no_pair_twice(ids: Seq<u64>, p: int, q: int)
    requires
        ids.no_duplicates(),
        0 <= p < all_pairs(ids).len(),
        0 <= q < all_pairs(ids).len(),
        p != q,
    ensures
        all_pairs(ids)[p] != all_pairs(ids)[q],
        all_pairs(ids)[p] != (all_pairs(ids)[q].1, all_pairs(ids)[q].0),
{
    let n = ids.len() as int;
    let first = lemma_entry_is_a_pair(ids, p);
    let second = lemma_entry_is_a_pair(ids, q);
    if all_pairs(ids)[p] == all_pairs(ids)[q] {
        lemma_slot_injective(n, first.0, first.1, second.0, second.1);
    }
}

/// Two different bodies meet exactly once in the pass: at one place stands
/// their pair, in one order or the other, and at no other place.
pub proof fn lemma_every_pair_meets_once(ids: Seq<u64>, x: u64, y: u64) -> (p: int)
    requires
        ids.no_duplicates(),
        ids.contains(x),
        ids.contains(y),
        x != y,
    ensures
        0 <= p < all_pairs(ids).len(),
        all_pairs(ids)[p] == (x, y) || all_pairs(ids)[p] == (y, x),
        forall|q: int|
            0 <= q < all_pairs(ids).len() && q != p ==> #[trigger] all_pairs(ids)[q] != (x, y)
                && all_pairs(ids)[q] != (y, x),
{
    let n = ids.len() as int;
    let i = choose|i: int| 0 <= i < n && ids[i] == x;
    let j = choose|j: int| 0 <= j < n && ids[j] == y;
    let p = if i < j {
        slot(n, i, j)
    } else {
        slot(n, j, i)
    };
    if i < j {
        lemma_pair_is_scheduled(ids, i, j);
    } else {
        lemma_pair_is_scheduled(ids, j, i);
    }
    assert forall|q: int| 0 <= q < all_pairs(ids).len() && q != p implies #[trigger] all_pairs(
        ids,
    )[q] != (x, y) && all_pairs(ids)[q] != (y, x) by {
        lemma_no_pair_twice(ids, p, q);
    }
    p
}

/// The field work holds nothing but `Gather` actions, each of a body of
/// `ids` with a field below `fields`.
pub proof fn lemma_gathers_name_members(ids: Seq<u64>, fields: usize, a: int)
    requires
        0 <= a <= ids.len(),
    ensures
        forall|p: int|
            0 <= p < gathers_before(ids, fields, a).len() ==> (#[trigger] gathers_before(
                ids,
                fields,
                a,
            )[p] matches Action::Gather { particle, field } && ids.contains(particle) && field
                < fields),
    decreases a,
{
    if a > 0 {
        lemma_gathers_name_members(ids, fields, a - 1);
        let head = gathers_before(ids, fields, a - 1);
        let row = gather_row(ids[a - 1], fields);
        assert forall|p: int| 0 <= p < (head + row).len() implies (#[trigger] (head + row)[p] matches Action::Gather {
            particle,
            field,
        } && ids.contains(particle) && field < fields) by {
            if p >= head.len() {
                assert((head + row)[p] == row[p - head.len()]);
            } else {
                assert((head + row)[p] == head[p]);
            }
        }
    }
}

/// A step integrates last: its closing entries are one `Integrate` per
/// body, in the order of `ids`, and nothing before them is an integration.
/// So whatever force a body gathers in a step is consumed within it.
pub proof fn lemma_step_ends_with_integration(ids: Seq<u64>, fields: usize)
    ensures
        step_actions(ids, fields).len() == force_actions(ids, fields).len() + ids.len(),
        forall|a: int|
            0 <= a < ids.len() ==> #[trigger] step_actions(ids, fields)[force_actions(
                ids,
                fields,
            ).len() + a] == (Action::Integrate { particle: ids[a] }),
        forall|p: int|
            0 <= p < force_actions(ids, fields).len() ==> !(#[trigger] step_actions(
                ids,
                fields,
            )[p] is Integrate),
{
    lemma_gathers_name_members(ids, fields, ids.len() as int);
}

/// Whether the action works on the particle `id`.
pub open spec fn names(action: Action, id: u64) -> bool {
    match action {
        Action::Gather { particle, field } => particle == id,
        Action::Interact { first, second } => first == id || second == id,
        Action::Integrate { particle } => particle == id,
    }
}

/// A step names no strangers: every action works on bodies of `ids`.
pub proof fn lemma_step_names_members(ids: Seq<u64>, fields: usize, p: int, id: u64)
    requires
        0 <= p < step_actions(ids, fields).len(),
        names(step_actions(ids, fields)[p], id),
    ensures
        ids.contains(id),
{
    let gathered = gathers_before(ids, fields, ids.len() as int);
    lemma_gathers_name_members(ids, fields, ids.len() as int);
    if gathered.len() <= p < force_actions(ids, fields).len() {
        let pair = lemma_entry_is_a_pair(ids, p - gathered.len());
    } else if p >= force_actions(ids, fields).len() {
        assert(ids[p - force_actions(ids, fields).len()] == id);
    }
}

/// Whatever force a body gathers in a step is consumed within it: after
/// each piece of force work on a body, later in the same step, comes that
/// body's integration.
pub proof fn lemma_force_work_is_integrated(ids: Seq<u64>, fields: usize, p: int, id: u64) -> (q:
    int)
    requires
        0 <= p < force_actions(ids, fields).len(),
        names(step_actions(ids, fields)[p], id),
    ensures
        p < q < step_actions(ids, fields).len(),
        step_actions(ids, fields)[q] == (Action::Integrate { particle: id }),
{
    lemma_step_names_members(ids, fields, p, id);
    lemma_step_ends_with_integration(ids, fields);
    let a = choose|a: int| 0 <= a < ids.len() && ids[a] == id;
    force_actions(ids, fields).len() + a
}

} // verus!
