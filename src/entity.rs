//! Generational entity handles.
//!
//! An `Entity` names a slot (`id`) together with the generation that slot
//! had when the handle was issued. Once the slot is freed and reused, its
//! generation moves on and older handles stop naming a live entity.

use vstd::prelude::*;
use vstd::string::*;
use crate::world::World;

verus! {

/// Handle of an entity: an id and the generation of that id.
#[derive(Debug, Clone, Copy, PartialEq, Eq, Hash, Structural)]
pub struct Entity {
    pub(crate) id: u32,
    pub(crate) generation: u32,
}

/// The character of a decimal digit.
pub open spec fn digit_char(d: nat) -> char {
    if d == 0 { '0' }
    else if d == 1 { '1' }
    else if d == 2 { '2' }
    else if d == 3 { '3' }
    else if d == 4 { '4' }
    else if d == 5 { '5' }
    else if d == 6 { '6' }
    else if d == 7 { '7' }
    else if d == 8 { '8' }
    else { '9' }
}

/// The decimal representation of `n`, without leading zeros.
pub open spec fn decimal(n: nat) -> Seq<char>
    decreases n,
{
    if n < 10 {
        seq![digit_char(n)]
    } else {
        decimal(n / 10).push(digit_char(n % 10))
    }
}

/// The text `Entity(<id>v<generation>)`.
pub open spec fn entity_text(id: u32, generation: u32) -> Seq<char> {
    seq!['E', 'n', 't', 'i', 't', 'y', '('] + decimal(id as nat) + seq!['v'] + decimal(
        generation as nat,
    ) + seq![')']
}

fn digit_str(d: u32) -> (r: &'static str)
    requires
        d < 10,
    ensures
        r@ == seq![digit_char(d as nat)],
{
    proof {
        reveal_strlit("0");
        reveal_strlit("1");
        reveal_strlit("2");
        reveal_strlit("3");
        reveal_strlit("4");
        reveal_strlit("5");
        reveal_strlit("6");
        reveal_strlit("7");
        reveal_strlit("8");
        reveal_strlit("9");
    }
    if d == 0 { "0" }
    else if d == 1 { "1" }
    else if d == 2 { "2" }
    else if d == 3 { "3" }
    else if d == 4 { "4" }
    else if d == 5 { "5" }
    else if d == 6 { "6" }
    else if d == 7 { "7" }
    else if d == 8 { "8" }
    else { "9" }
}

fn append_decimal(s: &mut String, n: u32)
    ensures
        final(s)@ == old(s)@ + decimal(n as nat),
    decreases n,
{
    if n >= 10 {
        append_decimal(s, n / 10);
    }
    s.append(digit_str(n % 10));
    assert(decimal(n as nat) == if n < 10 { seq![digit_char(n as nat)] } else { decimal((n / 10) as nat).push(digit_char((n % 10) as nat)) });
    assert(final(s)@ =~= old(s)@ + decimal(n as nat));
}

impl Entity {
    /// The handle with the given parts.
    pub open(crate) spec fn spec_new(id: u32, generation: u32) -> Entity {
        Entity { id, generation }
    }

    pub open(crate) spec fn spec_id(&self) -> u32 {
        self.id
    }

    pub open(crate) spec fn spec_generation(&self) -> u32 {
        self.generation
    }

    /// Creates a handle from an id and a generation.
    pub fn new(id: u32, generation: u32) -> (r: Entity)
        ensures
            r.spec_id() == id,
            r.spec_generation() == generation,
    {
        Entity { id, generation }
    }

    /// Rebuilds a handle from the raw parts kept in storage.
    pub fn from_raw(id: u32, generation: u32) -> (r: Entity)
        ensures
            r.spec_id() == id,
            r.spec_generation() == generation,
    {
        Entity { id, generation }
    }

    /// The entity id.
    #[verifier::when_used_as_spec(spec_id)]
    pub fn id(&self) -> (r: u32)
        ensures
            r == self.spec_id(),
    {
        self.id
    }

    /// The generation of the id when this handle was issued.
    #[verifier::when_used_as_spec(spec_generation)]
    pub fn generation(&self) -> (r: u32)
        ensures
            r == self.spec_generation(),
    {
        self.generation
    }

    /// The handle as text, `Entity(<id>v<generation>)`.
    pub fn to_string(&self) -> (r: String)
        ensures
            r@ == entity_text(self.spec_id(), self.spec_generation()),
    {
        let mut s = String::from_str("Entity(");
        append_decimal(&mut s, self.id);
        s.append("v");
        append_decimal(&mut s, self.generation);
        s.append(")");
        proof {
            reveal_strlit("Entity(");
            reveal_strlit("v");
            reveal_strlit(")");
        }
        assert(s@ =~= entity_text(self.spec_id(), self.spec_generation()));
        s
    }
}

/// Builds up a freshly spawned entity: each step inserts a component or a
/// tag, and `id` hands back the handle.
pub struct EntityBuilder<'w, C> {
    /// The world the entity lives in.
    pub world: &'w mut World<C>,
    /// The entity being built.
    pub entity: Entity,
}

impl<'w, C> EntityBuilder<'w, C> {
    /// Wraps the world that `entity` lives in.
    pub fn new(world: &'w mut World<C>, entity: Entity) -> (r: Self)
        ensures
            r.entity == entity,
            *r.world == *old(world),
            *final(world) == *final(r.world),
    {
        EntityBuilder { world, entity }
    }

    /// Inserts `component` under the component-type key `key`.
    pub fn insert(self, key: u32, component: C) -> (r: Self)
        requires
            old(self.world).wf(),
        ensures
            r.entity == self.entity,
            r.world.wf(),
            (*r.world)@ == (*old(self.world))@.insert(self.entity, key, component),
            *final(r.world) == *final(self.world),
    {
        let EntityBuilder { world, entity } = self;
        world.insert(entity, key, component);
        EntityBuilder { world, entity }
    }

    /// Attaches `tag`.
    pub fn tag(self, tag: &str) -> (r: Self)
        requires
            old(self.world).wf(),
            (*old(self.world))@.is_alive(self.entity) ==> (*old(self.world))@.can_tag(tag@),
        ensures
            r.entity == self.entity,
            r.world.wf(),
            (*r.world)@ == (*old(self.world))@.tag(self.entity, tag@),
            *final(r.world) == *final(self.world),
    {
        let EntityBuilder { world, entity } = self;
        world.tag(entity, tag);
        EntityBuilder { world, entity }
    }

    /// Finishes building and returns the handle.
    pub fn id(self) -> (r: Entity)
        ensures
            r == self.entity,
            *final(self.world) == *old(self.world),
    {
        self.entity
    }
}

} // verus!
