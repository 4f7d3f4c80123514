//! Star systems and their assembly from what the generators drew.

use crate::astronomicals::planet::Planet;
use crate::astronomicals::star::Star;
use crate::generators::names::{
    accepts, gives, lemma_owed_is_given, may_fail, owes, valid_name, walkable, Model, NameGen,
};
use crate::location::Location;
use crate::order::reversed;
use crate::random::isaac_choose;
use rand::Isaac64Rng;
use vstd::prelude::*;

verus! {

/// Why a system could not be generated: which generator rejected its draw.
#[derive(Clone, Copy, Debug, PartialEq, Eq, Structural)]
pub enum GenerationError {
    Star,
    Planet,
}

/// A star system: a star and its planets at a location.
#[derive(Debug)]
pub struct System {
    pub location: Location,
    pub name: String,
    pub star: Star,
    pub satelites: Vec<Planet>,
}

/// The first failure among the draws of planets, in the order of drawing.
pub open spec fn first_planet_failure(planets: Seq<Result<Planet, GenerationError>>) -> Option<
    GenerationError,
>
    decreases planets.len(),
{
    if planets.len() == 0 {
        None
    } else {
        match planets[0] {
            Err(e) => Some(e),
            Ok(_) => first_planet_failure(planets.drop_first()),
        }
    }
}

/// The first failure among the draws for a system: that of the star, or else
/// the first among the planets.
pub open spec fn first_failure(
    star: Result<Star, GenerationError>,
    planets: Seq<Result<Planet, GenerationError>>,
) -> Option<GenerationError> {
    match star {
        Err(e) => Some(e),
        Ok(_) => first_planet_failure(planets),
    }
}

/// Whether `name` is the fallback, or a name that the model handed out
/// between `before` and `after`.
pub open spec fn fresh_or_unnamed(before: Seq<Seq<char>>, after: Seq<Seq<char>>, name: Seq<char>) -> bool {
    name == "Unnamed"@ || (after.contains(name) && !before.contains(name))
}

/// What naming one body does to the names handed out: the body gets a name
/// that the model accepts, valid and not handed out before, which is handed
/// out now; or it gets the fallback, nothing is handed out, and the draws
/// were such as leave the model without a name.
pub open spec fn named_by(
    model: Model,
    before: Seq<Seq<char>>,
    after: Seq<Seq<char>>,
    name: Seq<char>,
) -> bool {
    gives(model, before, Some(name), after) || (name == "Unnamed"@ && gives(model, before, None, after))
}

/// Whether the body at position `i` was named by the call that led from
/// the names handed out at `states[i]` to those at `states[i + 1]`.
pub open spec fn step_named(
    model: Model,
    states: Seq<Seq<Seq<char>>>,
    names: Seq<Seq<char>>,
    i: int,
) -> bool {
    named_by(model, states[i], states[i + 1], names[i])
}

/// Whether `states` are the names handed out before, between and after the
/// calls that named bodies `names`, one call for each body, in order.
pub open spec fn is_naming(model: Model, states: Seq<Seq<Seq<char>>>, names: Seq<Seq<char>>) -> bool {
    &&& states.len() == names.len() + 1
    &&& forall|i: int| 0 <= i < names.len() ==> #[trigger] step_named(model, states, names, i)
}

/// Whether bodies named one after another, each by one call for a name, get
/// `names` in this order, beginning with `before` handed out and ending with
/// `after`.
pub open spec fn named_in_turn(
    model: Model,
    before: Seq<Seq<char>>,
    names: Seq<Seq<char>>,
    after: Seq<Seq<char>>,
) -> bool {
    exists|states: Seq<Seq<Seq<char>>>| #[trigger]
        is_naming(model, states, names) && states[0] == before && states.last() == after
}

/// In a naming in turn, each call hands out one name or none: after `i`
/// calls at most `i` names more are handed out than before, and none less.
pub proof fn lemma_names_taken(model: Model, states: Seq<Seq<Seq<char>>>, names: Seq<Seq<char>>, i: int)
    requires
        is_naming(model, states, names),
        0 <= i <= names.len(),
    ensures
        states[0].len() <= states[i].len() <= states[0].len() + i,
        states[0].is_prefix_of(states[i]),
    decreases i,
{
    if i > 0 {
        lemma_names_taken(model, states, names, i - 1);
        assert(step_named(model, states, names, i - 1));
    }
}

/// The names of the planets, in order.
pub open spec fn planet_names(planets: Seq<Planet>) -> Seq<Seq<char>> {
    Seq::new(planets.len(), |i: int| planets[i].name@)
}

/// Whether two planets of the same name bear the fallback: names from the
/// model differ.
pub open spec fn names_differ(planets: Seq<Planet>, i: int, j: int) -> bool {
    planets[i].name@ == planets[j].name@ ==> planets[i].name@ == "Unnamed"@
}

/// Whether the first of the bodies named got the next name of the model.
pub open spec fn first_is_next(before: Seq<Seq<char>>, after: Seq<Seq<char>>, name: Seq<char>) -> bool {
    after.len() > before.len() && name == after[before.len() as int]
}

/// Whether a system without planets got the next name of the model, followed
/// by " System".
pub open spec fn system_is_next(before: Seq<Seq<char>>, after: Seq<Seq<char>>, name: Seq<char>) -> bool {
    after.len() > before.len() && name == after[before.len() as int] + " System"@
}

/// How a system comes by its name `name` and its planets by theirs, with
/// `before` handed out before and `after` afterwards. The planets are named
/// in turn, and the system after one of them; a system without planets is
/// named by one more call for a name. The name is followed by " System".
pub open spec fn titled(
    model: Model,
    satelites: Seq<Planet>,
    before: Seq<Seq<char>>,
    after: Seq<Seq<char>>,
    name: Seq<char>,
) -> bool {
    if satelites.len() > 0 {
        &&& named_in_turn(model, before, planet_names(satelites), after)
        &&& exists|j: int| 0 <= j < satelites.len() && name == (#[trigger] satelites[j]).name@ + " System"@
    } else {
        exists|base: Seq<char>| #[trigger] named_by(model, before, after, base) && name == base + " System"@
    }
}

/// The name, or "Unnamed" where the model had none to give.
pub fn name_or_unnamed(name: Option<String>) -> (text: String)
    ensures
        text@ == (match name {
            Some(given) => given@,
            None => "Unnamed"@,
        }),
{
    match name {
        Some(given) => given,
        None => String::from_str("Unnamed"),
    }
}

/// What was drawn, if no draw failed; else the first failure.
pub fn drawn(star: Result<Star, GenerationError>, planets: Vec<Result<Planet, GenerationError>>) -> (all:
    Result<(Star, Vec<Planet>), GenerationError>)
    ensures
        match all {
            Ok((s, ps)) => {
                &&& first_failure(star, planets@) is None
                &&& star == Ok::<Star, GenerationError>(s)
                &&& ps@.len() == planets@.len()
                &&& forall|i: int|
                    0 <= i < ps@.len() ==> planets@[i] == Ok::<Planet, GenerationError>(#[trigger] ps@[i])
            },
            Err(e) => first_failure(star, planets@) == Some(e),
        },
{
    let ghost all = planets@;
    let sun = match star {
        Ok(sun) => sun,
        Err(e) => {
            return Err(e);
        },
    };
    let mut rest = reversed(planets);
    let mut satelites: Vec<Planet> = Vec::new();
    assert(all.skip(0) =~= all);
    assert(rest@.take(rest@.len() as int) =~= rest@);
    while rest.len() > 0
        invariant
            star == Ok::<Star, GenerationError>(sun),
            all == planets@,
            rest@.len() + satelites@.len() == all.len(),
            rest@ == all.reverse().take(rest@.len() as int),
            forall|i: int|
                0 <= i < satelites@.len() ==> all[i] == Ok::<Planet, GenerationError>(
                    #[trigger] satelites@[i],
                ),
            first_planet_failure(all) == first_planet_failure(all.skip(satelites@.len() as int)),
        decreases rest@.len(),
    {
        let ghost done = satelites@.len() as int;
        proof {
            assert(all.skip(done)[0] == all[done]);
            assert(all.skip(done).drop_first() =~= all.skip(done + 1));
            assert(rest@[rest@.len() - 1] == all[done]);
        }
        match rest.pop() {
            Some(Ok(planet)) => {
                satelites.push(planet);
            },
            Some(Err(e)) => {
                assert(all.skip(done)[0] == Err::<Planet, GenerationError>(e));
                assert(first_planet_failure(all.skip(done)) == Some(e));
                return Err(e);
            },
            None => {},
        }
    }
    assert(all.skip(all.len() as int).len() == 0);
    Ok((sun, satelites))
}

/// A name that was fresh or the fallback stays so while more names are
/// handed out.
pub proof fn lemma_fresh_stays(
    first: Seq<Seq<char>>,
    before: Seq<Seq<char>>,
    after: Seq<Seq<char>>,
    name: Seq<char>,
)
    requires
        fresh_or_unnamed(first, before, name),
        before.is_prefix_of(after),
    ensures
        fresh_or_unnamed(first, after, name),
{
    if before.contains(name) {
        let i = before.index_of(name);
        assert(after[i] == name);
    }
}

/// A name that the model hands out is fresh with respect to every earlier
/// state of the model.
pub proof fn lemma_new_is_fresh(first: Seq<Seq<char>>, before: Seq<Seq<char>>, name: Seq<char>)
    requires
        first.is_prefix_of(before),
        !before.contains(name),
    ensures
        fresh_or_unnamed(first, before.push(name), name),
        first.is_prefix_of(before.push(name)),
        before.is_prefix_of(before.push(name)),
{
    if first.contains(name) {
        let i = first.index_of(name);
        assert(before[i] == name);
    }
    assert(before.push(name)[before.len() as int] == name);
}

/// A name from the model, or the fallback where the model has none to give.
fn fresh_name(name_gen: &mut NameGen, Ghost(first): Ghost<Seq<Seq<char>>>) -> (name: String)
    requires
        old(name_gen).wf(),
        first.is_prefix_of(old(name_gen).generated()),
    ensures
        final(name_gen).wf(),
        final(name_gen).model() == old(name_gen).model(),
        old(name_gen).generated().is_prefix_of(final(name_gen).generated()),
        first.is_prefix_of(final(name_gen).generated()),
        fresh_or_unnamed(first, final(name_gen).generated(), name@),
        named_by(old(name_gen).model(), old(name_gen).generated(), final(name_gen).generated(), name@),
        old(name_gen).owes_name() ==> first_is_next(
            old(name_gen).generated(),
            final(name_gen).generated(),
            name@,
        ),
{
    let generated = name_gen.generate();
    proof {
        if generated is Some {
            lemma_new_is_fresh(first, old(name_gen).generated(), generated.unwrap()@);
        }
    }
    name_or_unnamed(generated)
}

/// Names each planet in turn with a name from the model, or with the
/// fallback where the model has none to give: one call for a name for each
/// planet, in the order of the planets.
pub fn name_planets(planets: Vec<Planet>, name_gen: &mut NameGen) -> (named: Vec<Planet>)
    requires
        old(name_gen).wf(),
    ensures
        final(name_gen).wf(),
        final(name_gen).model() == old(name_gen).model(),
        old(name_gen).generated().is_prefix_of(final(name_gen).generated()),
        named@.len() == planets@.len(),
        forall|i: int| 0 <= i < named@.len() ==> (#[trigger] named@[i]).same_body(&planets@[i]),
        named_in_turn(
            old(name_gen).model(),
            old(name_gen).generated(),
            planet_names(named@),
            final(name_gen).generated(),
        ),
        forall|i: int|
            0 <= i < named@.len() ==> fresh_or_unnamed(
                old(name_gen).generated(),
                final(name_gen).generated(),
                (#[trigger] named@[i]).name@,
            ),
        forall|i: int, j: int| 0 <= i < j < named@.len() ==> #[trigger] names_differ(named@, i, j),
        old(name_gen).owes_name() && planets@.len() > 0 ==> first_is_next(
            old(name_gen).generated(),
            final(name_gen).generated(),
            named@[0].name@,
        ),
{
    let ghost first = name_gen.generated();
    let ghost model = name_gen.model();
    let ghost mut states: Seq<Seq<Seq<char>>> = seq![first];
    let mut named = planets;
    let mut i: usize = 0;
    while i < named.len()
        invariant
            0 <= i <= named@.len(),
            name_gen.wf(),
            name_gen.model() == old(name_gen).model(),
            model == old(name_gen).model(),
            first == old(name_gen).generated(),
            first.is_prefix_of(name_gen.generated()),
            named@.len() == planets@.len(),
            forall|j: int| 0 <= j < named@.len() ==> (#[trigger] named@[j]).same_body(&planets@[j]),
            is_naming(model, states, planet_names(named@).take(i as int)),
            states[0] == first,
            states.last() == name_gen.generated(),
            forall|j: int|
                0 <= j < i ==> fresh_or_unnamed(first, name_gen.generated(), (#[trigger] named@[j]).name@),
            forall|a: int, b: int| 0 <= a < b < i ==> #[trigger] names_differ(named@, a, b),
            owes(model, first) && i > 0 ==> first_is_next(first, name_gen.generated(), named@[0].name@),
        decreases named@.len() - i,
    {
        let ghost before = name_gen.generated();
        let ghost so_far = named@;
        let name = fresh_name(name_gen, Ghost(first));
        named[i].set_name(name);
        proof {
            let after = name_gen.generated();
            assert forall|j: int| 0 <= j < i + 1 implies fresh_or_unnamed(
                first,
                after,
                (#[trigger] named@[j]).name@,
            ) by {
                if j < i {
                    assert(named@[j] == so_far[j]);
                    lemma_fresh_stays(first, before, after, so_far[j].name@);
                }
            }
            assert forall|j: int| 0 <= j < named@.len() implies (#[trigger] named@[j]).same_body(
                &planets@[j],
            ) by {
                if j != i {
                    assert(named@[j] == so_far[j]);
                }
                assert(so_far[j].same_body(&planets@[j]));
            }
            // One more planet was named, by one more call.
            let names = planet_names(named@).take(i + 1);
            let longer = states.push(after);
            assert forall|j: int| 0 <= j < names.len() implies #[trigger] step_named(
                model,
                longer,
                names,
                j,
            ) by {
                if j < i {
                    assert(named@[j] == so_far[j]);
                    assert(step_named(model, states, planet_names(so_far).take(i as int), j));
                }
            }
            states = longer;
            // A name from the model is none of the names given so far.
            assert forall|a: int, b: int| 0 <= a < b < i + 1 implies #[trigger] names_differ(
                named@,
                a,
                b,
            ) by {
                assert(named@[a] == so_far[a]);
                if b < i {
                    assert(named@[b] == so_far[b]);
                    assert(names_differ(so_far, a, b));
                } else {
                    assert(fresh_or_unnamed(first, before, so_far[a].name@));
                }
            }
            if owes(model, first) {
                if i > 0 {
                    assert(named@[0] == so_far[0]);
                    assert(after[first.len() as int] == before[first.len() as int]);
                }
            }
        }
        i += 1;
    }
    proof {
        assert(planet_names(named@).take(named@.len() as int) =~= planet_names(named@));
        assert(is_naming(model, states, planet_names(named@)));
    }
    named
}

impl System {
    /// The system of the given star and planets at `location`, named after
    /// `base`.
    pub fn assemble(location: Location, base: String, star: Star, satelites: Vec<Planet>) -> (system:
        System)
        ensures
            system.location == location,
            system.name@ == base@ + " System"@,
            system.star == star,
            system.satelites == satelites,
    {
        System { location, name: base.concat(" System"), star, satelites }
    }

    /// The name that a system of the given planets is called after: that of
    /// one planet taken at random, with nothing asked of the model; or
    /// without planets the name that one call for a name gives.
    fn base_name(satelites: &Vec<Planet>, rng: &mut Isaac64Rng, name_gen: &mut NameGen) -> (base:
        String)
        requires
            old(name_gen).wf(),
        ensures
            final(name_gen).wf(),
            final(name_gen).model() == old(name_gen).model(),
            old(name_gen).generated().is_prefix_of(final(name_gen).generated()),
            satelites@.len() > 0 ==> final(name_gen).generated() == old(name_gen).generated() && exists|
                j: int,
            |
                0 <= j < satelites@.len() && base@ == (#[trigger] satelites@[j]).name@,
            satelites@.len() == 0 ==> named_by(
                old(name_gen).model(),
                old(name_gen).generated(),
                final(name_gen).generated(),
                base@,
            ),
            satelites@.len() == 0 && old(name_gen).owes_name() ==> first_is_next(
                old(name_gen).generated(),
                final(name_gen).generated(),
                base@,
            ),
    {
        match isaac_choose(rng, satelites) {
            Some(planet) => {
                proof {
                    let j = satelites@.index_of(*planet);
                    assert(satelites@[j] == *planet);
                }
                planet.name.clone()
            },
            None => fresh_name(name_gen, Ghost(name_gen.generated())),
        }
    }

    /// The system at `location` made of what the generators drew for it.
    ///
    /// A failed draw is fatal: the first failure comes back, and no name is
    /// taken from the model. Otherwise the model is asked for a name once for
    /// each planet, in the order of the planets, and a planet for which it has
    /// none is called "Unnamed". The system is named after one planet taken at
    /// random; a system without planets is named by one call for a name, with
    /// the same fallback.
    pub fn new(
        location: Location,
        star: Result<Star, GenerationError>,
        planets: Vec<Result<Planet, GenerationError>>,
        rng: &mut Isaac64Rng,
        name_gen: &mut NameGen,
    ) -> (system: Result<System, GenerationError>)
        requires
            old(name_gen).wf(),
        ensures
            final(name_gen).wf(),
            final(name_gen).model() == old(name_gen).model(),
            old(name_gen).generated().is_prefix_of(final(name_gen).generated()),
            match system {
                Err(e) => {
                    &&& first_failure(star, planets@) == Some(e)
                    &&& final(name_gen).generated() == old(name_gen).generated()
                },
                Ok(made) => {
                    &&& first_failure(star, planets@) is None
                    &&& made.location == location
                    &&& star == Ok::<Star, GenerationError>(made.star)
                    &&& made.satelites@.len() == planets@.len()
                    &&& forall|i: int|
                        0 <= i < planets@.len() ==> (#[trigger] planets@[i]) is Ok
                            && made.satelites@[i].same_body(&planets@[i].unwrap())
                    &&& titled(
                        old(name_gen).model(),
                        made.satelites@,
                        old(name_gen).generated(),
                        final(name_gen).generated(),
                        made.name@,
                    )
                    &&& forall|i: int|
                        0 <= i < made.satelites@.len() ==> fresh_or_unnamed(
                            old(name_gen).generated(),
                            final(name_gen).generated(),
                            (#[trigger] made.satelites@[i]).name@,
                        )
                    &&& forall|i: int, j: int|
                        0 <= i < j < made.satelites@.len() ==> #[trigger] names_differ(
                            made.satelites@,
                            i,
                            j,
                        )
                    &&& old(name_gen).owes_name() && planets@.len() > 0 ==> first_is_next(
                        old(name_gen).generated(),
                        final(name_gen).generated(),
                        made.satelites@[0].name@,
                    )
                    &&& old(name_gen).owes_name() && planets@.len() == 0 ==> system_is_next(
                        old(name_gen).generated(),
                        final(name_gen).generated(),
                        made.name@,
                    )
                },
            },
    {
        let (sun, bare) = match drawn(star, planets) {
            Ok(all) => all,
            Err(e) => {
                return Err(e);
            },
        };
        let satelites = name_planets(bare, name_gen);
        let base = System::base_name(&satelites, rng, name_gen);
        proof {
            assert forall|i: int| 0 <= i < planets@.len() implies (#[trigger] planets@[i]) is Ok
                && satelites@[i].same_body(&planets@[i].unwrap()) by {
                assert(planets@[i] == Ok::<Planet, GenerationError>(bare@[i]));
            }
        }
        Ok(System::assemble(location, base, sun, satelites))
    }
}

} // verus!
