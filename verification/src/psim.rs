//! The world: particles under stable 64-bit handles, force fields in the
//! order they were added, and the planning of a time step over both.

use crate::particle::Particle;
use crate::schedule::{force_actions, plan_forces, plan_step, step_actions, Action};
use multi_mut::HashMapMultiMut;
use std::collections::HashMap;
use vstd::prelude::*;
use vstd::std_specs::iter::IteratorSpec;

verus! {

broadcast use vstd::std_specs::hash::group_hash_axioms;

/// A world of particles with kinematic state `B` and force fields `F`.
pub struct PSim<B, F> {
    pub particles: HashMap<u64, Particle<B>>,
    pub force_fields: Vec<F>,
}

/// The handle `steps` places after `start`, counting round the 64-bit
/// range.
pub open spec fn probe(start: u64, steps: int) -> u64 {
    ((start + steps) % 0x1_0000_0000_0000_0000) as u64
}

/// How many places `id` lies after `start`, counting round.
pub open spec fn distance(start: u64, id: u64) -> int {
    if id >= start {
        id - start
    } else {
        id - start + 0x1_0000_0000_0000_0000
    }
}

/// `id` is the first handle at or after `start`, counting round, that
/// `taken` does not hold.
pub open spec fn first_free(taken: Set<u64>, start: u64, id: u64) -> bool {
    &&& !taken.contains(id)
    &&& forall|k: int| 0 <= k < distance(start, id) ==> taken.contains(#[trigger] probe(start, k))
}

/// `ids` lists the handles in `handles`, each once.
pub open spec fn is_roster(ids: Seq<u64>, handles: Set<u64>) -> bool {
    &&& ids.no_duplicates()
    &&& ids.to_set() == handles
}

/// Calls `rand::random::<u64>()`, which draws from the thread's generator.
/// Nothing is claimed of the number drawn.
#[verifier::external_body]
fn draw_handle() -> (r: u64) {
    rand::random::<u64>()
}

/// Calls `multi_mut::HashMapMultiMut::get_pair_mut`. It looks both keys up
/// and hands out the two values mutably unless a key is missing or the two
/// lookups reach the same value, which for values of non-zero size, as a
/// particle is, means that the keys are equal. Nothing but the two values
/// can change through the references.
#[verifier::external_body]
fn pair_of<'a, B>(particles: &'a mut HashMap<u64, Particle<B>>, first: u64, second: u64) -> (r:
    Option<(&'a mut Particle<B>, &'a mut Particle<B>)>)
    ensures
        match r {
            Some(pair) => {
                &&& old(particles)@.contains_key(first)
                &&& old(particles)@.contains_key(second)
                &&& first != second
                &&& *pair.0 == old(particles)@[first]
                &&& *pair.1 == old(particles)@[second]
                &&& final(particles)@ == old(particles)@.insert(first, *final(pair.0)).insert(
                    second,
                    *final(pair.1),
                )
            },
            None => {
                &&& !(old(particles)@.contains_key(first) && old(particles)@.contains_key(second)
                    && first != second)
                &&& final(particles)@ == old(particles)@
            },
        },
{
    particles.get_pair_mut(&first, &second)
}

impl<B, F> PSim<B, F> {
    /// An empty world.
    pub fn new() -> (world: Self)
        ensures
            world.particles@ == Map::<u64, Particle<B>>::empty(),
            world.force_fields@ == Seq::<F>::empty(),
    {
        PSim { particles: HashMap::new(), force_fields: Vec::new() }
    }

    /// Adds a particle under the first free handle at or after `candidate`
    /// and returns that handle. No particle already present is replaced.
    pub fn add_particle_with_handle(&mut self, candidate: u64, particle: Particle<B>) -> (id: u64)
        ensures
            first_free(old(self).particles@.dom(), candidate, id),
            final(self).particles@ == old(self).particles@.insert(id, particle),
            final(self).force_fields == old(self).force_fields,
    {
        let ghost taken = self.particles@.dom();
        let ghost mut seen: Set<u64> = Set::empty();
        let ghost mut steps: int = 0;
        let mut id: u64 = candidate;
        assert(taken.len() == vstd::std_specs::hash::spec_hash_map_len(&self.particles));
        while self.particles.contains_key(&id)
            invariant
                *self == *old(self),
                taken == self.particles@.dom(),
                taken.finite(),
                taken.len() <= u64::MAX,
                seen.finite(),
                seen.subset_of(taken),
                seen.len() == steps,
                0 <= steps <= taken.len(),
                id == probe(candidate, steps),
                forall|x: u64| seen.contains(x) ==> distance(candidate, x) < steps,
                forall|k: int| 0 <= k < steps ==> taken.contains(#[trigger] probe(candidate, k)),
            decreases taken.len() - steps,
        {
            proof {
                assert(distance(candidate, id) == steps);
                seen = seen.insert(id);
                vstd::set_lib::lemma_len_subset(seen, taken);
                steps = steps + 1;
            }
            id = if id == u64::MAX {
                0
            } else {
                id + 1
            };
        }
        assert(distance(candidate, id) == steps);
        self.particles.insert(id, particle);
        id
    }

    /// Adds a particle under a fresh handle, drawn at random, and returns
    /// the handle.
    pub fn add_particle(&mut self, particle: Particle<B>) -> (id: u64)
        ensures
            !old(self).particles@.contains_key(id),
            final(self).particles@ == old(self).particles@.insert(id, particle),
            final(self).force_fields == old(self).force_fields,
    {
        let candidate = draw_handle();
        self.add_particle_with_handle(candidate, particle)
    }

    /// Appends a force field.
    pub fn add_force_field(&mut self, force_field: F)
        ensures
            final(self).force_fields@ == old(self).force_fields@.push(force_field),
            final(self).particles == old(self).particles,
    {
        self.force_fields.push(force_field);
    }

    pub fn get_particles(&self) -> (r: &HashMap<u64, Particle<B>>)
        ensures
            *r == self.particles,
    {
        &self.particles
    }

    pub fn get_force_fields(&self) -> (r: &Vec<F>)
        ensures
            *r == self.force_fields,
    {
        &self.force_fields
    }

    /// The handles of all particles, each once, in the order the map walks
    /// them.
    pub fn particle_ids(&self) -> (ids: Vec<u64>)
        ensures
            is_roster(ids@, self.particles@.dom()),
    {
        let mut ids: Vec<u64> = Vec::new();
        for key in it: self.particles.keys()
            invariant
                it.seq() == self.particles.keys().remaining(),
                ids@.len() == it.index(),
                forall|j: int| 0 <= j < ids@.len() ==> ids@[j] == *it.seq()[j],
        {
            ids.push(*key);
        }
        assert(ids@ =~= self.particles.keys().remaining().unref());
        ids
    }

    /// Both particles at once, for an encounter. `None` where a handle is
    /// unknown or the two are the same; otherwise the world ends with
    /// whatever the caller leaves behind the two references, and with every
    /// other particle as it was.
    pub fn get_pair_mut(&mut self, first: u64, second: u64) -> (r: Option<
        (&mut Particle<B>, &mut Particle<B>),
    >)
        ensures
            final(self).force_fields == old(self).force_fields,
            match r {
                Some(pair) => {
                    &&& old(self).particles@.contains_key(first)
                    &&& old(self).particles@.contains_key(second)
                    &&& first != second
                    &&& *pair.0 == old(self).particles@[first]
                    &&& *pair.1 == old(self).particles@[second]
                    &&& final(self).particles@ == old(self).particles@.insert(
                        first,
                        *final(pair.0),
                    ).insert(second, *final(pair.1))
                },
                None => {
                    &&& !(old(self).particles@.contains_key(first) && old(
                        self,
                    ).particles@.contains_key(second) && first != second)
                    &&& final(self).particles@ == old(self).particles@
                },
            },
    {
        pair_of(&mut self.particles, first, second)
    }

    /// Removes the particles whose handles `ids` lists; handles that name
    /// no particle are passed over. Every other particle stays as it was.
    pub fn remove_particles(&mut self, ids: &Vec<u64>)
        ensures
            final(self).particles@ == old(self).particles@.remove_keys(ids@.to_set()),
            final(self).force_fields == old(self).force_fields,
    {
        assert(self.particles@ =~= old(self).particles@.remove_keys(ids@.take(0).to_set()));
        let mut i: usize = 0;
        while i < ids.len()
            invariant
                i <= ids.len(),
                self.force_fields == old(self).force_fields,
                self.particles@ == old(self).particles@.remove_keys(
                    ids@.take(i as int).to_set(),
                ),
            decreases ids.len() - i,
        {
            let id = ids[i];
            self.particles.remove(&id);
            proof {
                assert(ids@.take(i + 1) =~= ids@.take(i as int).push(id));
                ids@.take(i as int).lemma_push_to_set_commute(id);
                assert(self.particles@ =~= old(self).particles@.remove_keys(
                    ids@.take(i + 1).to_set(),
                ));
            }
            i = i + 1;
        }
        assert(ids@.take(i as int) =~= ids@);
    }

    /// The force work of one step over some roster of the particles: each
    /// particle with each field, then each unordered pair once.
    pub fn plan_forces(&self) -> (plan: Vec<Action>)
        ensures
            exists|ids: Seq<u64>| #[trigger]
                is_roster(ids, self.particles@.dom()) && plan@ == force_actions(
                    ids,
                    self.force_fields.len(),
                ),
    {
        let ids = self.particle_ids();
        plan_forces(&ids, self.force_fields.len())
    }

    /// One whole step over some roster of the particles: the force work,
    /// then the integration of each particle.
    pub fn plan_step(&self) -> (plan: Vec<Action>)
        ensures
            exists|ids: Seq<u64>| #[trigger]
                is_roster(ids, self.particles@.dom()) && plan@ == step_actions(
                    ids,
                    self.force_fields.len(),
                ),
    {
        let ids = self.particle_ids();
        plan_step(&ids, self.force_fields.len())
    }
}

/// The first free handle is one handle: two answers to the same search are
/// equal.
pub proof fn lemma_first_free_is_unique(taken: Set<u64>, start: u64, a: u64, b: u64)
    requires
        first_free(taken, start, a),
        first_free(taken, start, b),
    ensures
        a == b,
{
    assert(probe(start, distance(start, a)) == a);
    assert(probe(start, distance(start, b)) == b);
}

/// A candidate that is free is the handle given.
pub proof fn lemma_free_candidate_is_kept(taken: Set<u64>, start: u64)
    requires
        !taken.contains(start),
    ensures
        first_free(taken, start, start),
{
}

/// Handles are stable: adding a particle under a handle that was free
/// leaves every earlier handle with its particle.
pub proof fn lemma_insertion_keeps_handles<B>(
    before: Map<u64, Particle<B>>,
    id: u64,
    particle: Particle<B>,
    other: u64,
)
    requires
        !before.contains_key(id),
        before.contains_key(other),
    ensures
        before.insert(id, particle).contains_key(other),
        before.insert(id, particle)[other] == before[other],
        before.insert(id, particle).remove(id) == before,
{
    assert(before.insert(id, particle).remove(id) =~= before);
}

} // verus!
