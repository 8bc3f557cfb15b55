//! A simulated body: a caller-chosen kinematic record wrapped together with
//! the one flag that the engine's rules read, whether the body is an
//! immovable anchor.

use vstd::prelude::*;

verus! {

/// What the geometry of two bodies says about their encounter. The caller
/// measures both facts on the positions the bodies have when they meet.
#[derive(Clone, Copy, Debug, PartialEq, Eq, Structural)]
pub struct Contact {
    /// The centres are so close that no direction joins them.
    pub coincident: bool,
    /// The centres are closer than the sum of the radii.
    pub overlapping: bool,
}

/// What an encounter of two bodies does to each of them.
#[derive(Clone, Copy, Debug, PartialEq, Eq, Structural)]
pub struct Interaction {
    /// The first body's force accumulator gains the attraction towards the
    /// second.
    pub pulls_first: bool,
    /// The second body's force accumulator gains the attraction towards the
    /// first.
    pub pulls_second: bool,
    /// The bodies are pushed apart along the line between them and exchange
    /// an elastic impulse.
    pub collides: bool,
}

/// The rule of an encounter: every movable body is attracted by the other
/// one unless the centres coincide, and only two movable bodies that overlap
/// collide.
pub open spec fn interaction_of(first_static: bool, second_static: bool, contact: Contact)
    -> Interaction {
    Interaction {
        pulls_first: !first_static && !contact.coincident,
        pulls_second: !second_static && !contact.coincident,
        collides: !first_static && !second_static && contact.overlapping,
    }
}

/// A body of kinematic state `B`, movable or anchored.
#[derive(Clone, Debug)]
pub struct Particle<B> {
    body: B,
    is_static: bool,
}

impl<B> Particle<B> {
    /// The kinematic state the particle carries.
    pub closed spec fn body_of(&self) -> B {
        self.body
    }

    /// Whether the particle is an anchor.
    pub closed spec fn anchored(&self) -> bool {
        self.is_static
    }

    /// A movable particle.
    pub fn new(body: B) -> (p: Self)
        ensures
            p.body_of() == body,
            !p.anchored(),
    {
        Particle { body, is_static: false }
    }

    /// An anchor: it attracts others and is itself never changed.
    pub fn new_static(body: B) -> (p: Self)
        ensures
            p.body_of() == body,
            p.anchored(),
    {
        Particle { body, is_static: true }
    }

    pub fn is_static(&self) -> (r: bool)
        ensures
            r == self.anchored(),
    {
        self.is_static
    }

    /// Read access to the kinematic state, of anchors too.
    pub fn body(&self) -> (r: &B)
        ensures
            *r == self.body_of(),
    {
        &self.body
    }

    /// Write access to the kinematic state. An anchor hands out none, so
    /// that no force, move or integration can reach it; a movable particle
    /// ends with whatever the caller leaves behind the reference.
    pub fn body_mut(&mut self) -> (r: Option<&mut B>)
        ensures
            r is None <==> old(self).anchored(),
            r is None ==> *final(self) == *old(self),
            r is Some ==> *r->0 == old(self).body_of() && !final(self).anchored()
                && final(self).body_of() == *final(r->0),
    {
        if self.is_static {
            None
        } else {
            Some(&mut self.body)
        }
    }

    /// Takes the particle apart.
    pub fn into_body(self) -> (r: B)
        ensures
            r == self.body_of(),
    {
        self.body
    }

    /// Decides what the encounter of `self` (the first body) with `other`
    /// (the second) does, given what the caller measured.
    pub fn interact(&self, other: &Particle<B>, contact: Contact) -> (r: Interaction)
        ensures
            r == interaction_of(self.anchored(), other.anchored(), contact),
    {
        Interaction {
            pulls_first: !self.is_static && !contact.coincident,
            pulls_second: !other.is_static && !contact.coincident,
            collides: !self.is_static && !other.is_static && contact.overlapping,
        }
    }
}

/// Bodies that do not overlap are never moved by their encounter: only
/// their force accumulators can change.
pub proof fn lemma_apart_never_collides(first_static: bool, second_static: bool, contact: Contact)
    requires
        !contact.overlapping,
    ensures
        !interaction_of(first_static, second_static, contact).collides,
{
}

/// An anchor takes part in no collision and receives no force, whatever the
/// other body is; and where one of the two is an anchor the other is at
/// most attracted.
pub proof fn lemma_anchor_is_untouched(first_static: bool, second_static: bool, contact: Contact)
    ensures
        first_static ==> !interaction_of(first_static, second_static, contact).pulls_first,
        second_static ==> !interaction_of(first_static, second_static, contact).pulls_second,
        first_static || second_static ==> !interaction_of(
            first_static,
            second_static,
            contact,
        ).collides,
{
}

/// The encounter is the same whichever body is called the first.
pub proof fn lemma_interaction_is_symmetric(
    first_static: bool,
    second_static: bool,
    contact: Contact,
)
    ensures
        interaction_of(second_static, first_static, contact) == (Interaction {
            pulls_first: interaction_of(first_static, second_static, contact).pulls_second,
            pulls_second: interaction_of(first_static, second_static, contact).pulls_first,
            collides: interaction_of(first_static, second_static, contact).collides,
        }),
{
}

} // verus!
