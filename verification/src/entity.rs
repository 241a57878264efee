//! The entities of the simulation, the model that holds them, and the exact
//! overlap test.

use crate::{GetX, GetY};
use vstd::prelude::*;

verus! {

/// A positioned, sized value of the simulation with its collision flag.
#[derive(Debug)]
pub struct Entity {
    pub x: u16,
    pub y: u16,
    pub width: u16,
    pub height: u16,
    pub collision: bool,
}

/// How many entities a model holds and how large the square world is in
/// which they lie.
#[derive(Debug, Clone, Copy)]
pub struct ModelConfig {
    pub model_size: u16,
    pub world_size: u16,
}

impl Default for ModelConfig {
    fn default() -> (config: Self)
        ensures
            config.model_size == 1000,
            config.world_size == 128,
    {
        Self { model_size: 1000, world_size: 128 }
    }
}

impl GetX for Entity {
    open spec fn x_coord(&self) -> u16 {
        self.x
    }

    fn get_x(&self) -> (x: u16) {
        self.x
    }
}

impl GetY for Entity {
    open spec fn y_coord(&self) -> u16 {
        self.y
    }

    fn get_y(&self) -> (y: u16) {
        self.y
    }
}

/// The generator `rand::rngs::StdRng`, carried through as it is: nothing
/// inside it is visible to contracts.
#[verifier::external_type_specification]
#[verifier::external_body]
pub struct ExStdRng(rand::rngs::StdRng);

/// Calls `rand::SeedableRng::seed_from_u64` for `rand::rngs::StdRng`, which
/// builds a generator from the seed and does not fail. Nothing is claimed of
/// the generator that comes back.
#[verifier::external_body]
fn seeded_rng(seed: u64) -> rand::rngs::StdRng {
    rand::SeedableRng::seed_from_u64(seed)
}

/// Calls `rand::Rng::gen_range` on the range `0..bound`. `gen_range` panics
/// on an empty range, so `bound` must be positive. All that is claimed of
/// the value drawn is that it lies in the range.
#[verifier::external_body]
fn draw_below(rng: &mut rand::rngs::StdRng, bound: u16) -> (value: u16)
    requires
        bound > 0,
    ensures
        value < bound,
{
    rand::Rng::gen_range(rng, 0..bound)
}

impl Entity {
    /// An entity of extent 1 x 1 at the given point that has not collided.
    pub fn at(x: u16, y: u16) -> (entity: Entity)
        ensures
            entity == (Entity { x, y, width: 1, height: 1, collision: false }),
    {
        Entity { x, y, width: 1, height: 1, collision: false }
    }
}

/// Builds a model of `config.model_size` entities of extent 1 x 1 at points
/// drawn from a generator with a fixed seed. Every coordinate lies below
/// `config.world_size`, which must be positive where any entity is asked for.
pub fn init_model(config: ModelConfig) -> (model: Vec<Entity>)
    requires
        config.model_size > 0 ==> config.world_size > 0,
    ensures
        model.len() == config.model_size,
        forall|i: int|
            0 <= i < model.len() ==> {
                &&& (#[trigger] model[i]).x < config.world_size
                &&& model[i].y < config.world_size
                &&& model[i].width == 1
                &&& model[i].height == 1
                &&& !model[i].collision
            },
{
    let mut model: Vec<Entity> = Vec::new();
    let mut rng = seeded_rng(42);
    for n in 0..config.model_size
        invariant
            config.model_size > 0 ==> config.world_size > 0,
            model.len() == n,
            forall|i: int|
                0 <= i < model.len() ==> {
                    &&& (#[trigger] model[i]).x < config.world_size
                    &&& model[i].y < config.world_size
                    &&& model[i].width == 1
                    &&& model[i].height == 1
                    &&& !model[i].collision
                },
    {
        let x: u16 = draw_below(&mut rng, config.world_size);
        let y: u16 = draw_below(&mut rng, config.world_size);
        model.push(Entity::at(x, y));
    }
    model
}

/// Whether the rectangles of two entities overlap: each starts before the
/// other ends, on both axes.
pub open spec fn overlaps(a: Entity, b: Entity) -> bool {
    &&& a.x < b.x + b.width
    &&& a.x + a.width > b.x
    &&& a.y < b.y + b.height
    &&& a.y + a.height > b.y
}

/// Whether the entity at `index` overlaps an entity of `model` that is named
/// in `others` and is not the entity itself.
pub open spec fn hit_among(model: Seq<Entity>, index: int, others: Seq<usize>) -> bool {
    exists|j: int|
        0 <= j < others.len() && #[trigger] others[j] != index && overlaps(
            model[index],
            model[others[j] as int],
        )
}

/// Whether the entity at `index` overlaps any other entity of `model`.
pub open spec fn hit_any(model: Seq<Entity>, index: int) -> bool {
    exists|j: int| 0 <= j < model.len() && j != index && overlaps(model[index], #[trigger] model[j])
}

/// The entity with its collision flag raised where `hit` holds.
pub open spec fn flagged(entity: Entity, hit: bool) -> Entity {
    Entity {
        x: entity.x,
        y: entity.y,
        width: entity.width,
        height: entity.height,
        collision: entity.collision || hit,
    }
}

/// Whether two entities have the same position and extent.
pub open spec fn same_geometry(a: Entity, b: Entity) -> bool {
    a.x == b.x && a.y == b.y && a.width == b.width && a.height == b.height
}

/// Overlap does not look at collision flags: two models that agree on every
/// position and extent agree on who is hit.
pub proof fn lemma_hit_among_by_geometry(
    a: Seq<Entity>,
    b: Seq<Entity>,
    index: int,
    others: Seq<usize>,
)
    requires
        a.len() == b.len(),
        0 <= index < a.len(),
        forall|j: int| 0 <= j < others.len() ==> others[j] < a.len(),
        forall|i: int| 0 <= i < a.len() ==> same_geometry(#[trigger] a[i], b[i]),
    ensures
        hit_among(a, index, others) == hit_among(b, index, others),
{
    assert(same_geometry(a[index], b[index]));
    if hit_among(a, index, others) {
        let j = choose|j: int|
            0 <= j < others.len() && #[trigger] others[j] != index && overlaps(
                a[index],
                a[others[j] as int],
            );
        assert(same_geometry(a[others[j] as int], b[others[j] as int]));
        assert(overlaps(b[index], b[others[j] as int]));
    }
    if hit_among(b, index, others) {
        let j = choose|j: int|
            0 <= j < others.len() && #[trigger] others[j] != index && overlaps(
                b[index],
                b[others[j] as int],
            );
        assert(same_geometry(a[others[j] as int], b[others[j] as int]));
        assert(overlaps(a[index], a[others[j] as int]));
    }
}

/// The overlap test of two axis-aligned rectangles.
pub fn is_coliding(entity: &Entity, other_entity: &Entity) -> (hit: bool)
    ensures
        hit == overlaps(*entity, *other_entity),
{
    (entity.x as u32) < other_entity.x as u32 + other_entity.width as u32 && entity.x as u32
        + entity.width as u32 > other_entity.x as u32 && (entity.y as u32) < other_entity.y as u32
        + other_entity.height as u32 && entity.y as u32 + entity.height as u32
        > other_entity.y as u32
}

/// Tests the entity at `index` against the entities that `local_model` names
/// by their indices, leaving out the entity itself, and raises its collision
/// flag where one of them overlaps it. No other entity changes.
pub fn update_entity_local(model: &mut Vec<Entity>, index: usize, local_model: &Vec<usize>)
    requires
        index < old(model).len(),
        forall|j: int| 0 <= j < local_model.len() ==> local_model[j] < old(model).len(),
    ensures
        final(model)@ == old(model)@.update(
            index as int,
            flagged(old(model)[index as int], hit_among(old(model)@, index as int, local_model@)),
        ),
{
    let mut hit = false;
    for n in 0..local_model.len()
        invariant
            index < model.len(),
            model@ == old(model)@,
            forall|j: int| 0 <= j < local_model.len() ==> local_model[j] < model.len(),
            hit == hit_among(model@, index as int, local_model@.take(n as int)),
    {
        let other: usize = local_model[n];
        let ghost seen = local_model@.take(n as int);
        let ghost next = local_model@.take(n + 1);
        if other != index && is_coliding(&model[index], &model[other]) {
            hit = true;
            assert(next[n as int] == other);
        } else {
            assert(hit_among(model@, index as int, next) ==> hit) by {
                if hit_among(model@, index as int, next) {
                    let j = choose|j: int|
                        0 <= j < next.len() && #[trigger] next[j] != index && overlaps(
                            model[index as int],
                            model[next[j] as int],
                        );
                    assert(seen[j] == next[j]);
                }
            }
        }
        assert(hit ==> hit_among(model@, index as int, next)) by {
            if hit_among(model@, index as int, seen) {
                let j = choose|j: int|
                    0 <= j < seen.len() && #[trigger] seen[j] != index && overlaps(
                        model[index as int],
                        model[seen[j] as int],
                    );
                assert(next[j] == seen[j]);
            }
        }
    }
    assert(local_model@.take(local_model.len() as int) =~= local_model@);
    if hit {
        model[index].collision = true;
    }
    assert(final(model)@ =~= old(model)@.update(
        index as int,
        flagged(old(model)[index as int], hit),
    ));
}

/// Tests the entity at `index` against every other entity of the model and
/// raises its collision flag where one of them overlaps it. No other entity
/// changes.
pub fn update_entity_global(model: &mut Vec<Entity>, index: usize)
    requires
        index < old(model).len(),
    ensures
        final(model)@ == old(model)@.update(
            index as int,
            flagged(old(model)[index as int], hit_any(old(model)@, index as int)),
        ),
{
    let mut hit = false;
    for n in 0..model.len()
        invariant
            index < model.len(),
            model@ == old(model)@,
            hit == (exists|j: int|
                0 <= j < n && j != index && overlaps(model[index as int], #[trigger] model[j])),
    {
        if n != index && is_coliding(&model[index], &model[n]) {
            hit = true;
        }
    }
    if hit {
        model[index].collision = true;
    }
    assert(final(model)@ =~= old(model)@.update(
        index as int,
        flagged(old(model)[index as int], hit),
    ));
}

} // verus!
