//! Default monthly production recipes of the port archetypes.
//!
//! Quantities are in tenths of a ton per month (`800` is 80 t/month).

use vstd::prelude::*;

use crate::goods::GoodId;
use crate::goods::ids::{
    CANNON_SHOT, ENSLAVED_PERSONS, GUNPOWDER, MANUFACTURES, MOLASSES, NAVAL_STORES, PROVISIONS, RUM, SILVER,
    SUGAR, TOBACCO,
};
use crate::market::PortArchetype;

verus! {

/// A recipe's monthly output and input lists, each `(good, tenths of a ton)`.
pub struct RecipeTable {
    pub outputs: Vec<(GoodId, u32)>,
    pub inputs: Vec<(GoodId, u32)>,
}

/// What an archetype produces each month, in tenths of a ton.
pub open spec fn recipe_outputs(a: PortArchetype) -> Seq<(GoodId, u32)> {
    match a {
        PortArchetype::SugarIsland => seq![(GoodId(SUGAR), 800u32), (GoodId(MOLASSES), 300u32), (GoodId(RUM), 150u32), (GoodId(PROVISIONS), 50u32)],
        PortArchetype::TobaccoColony => seq![(GoodId(TOBACCO), 1000u32), (GoodId(PROVISIONS), 60u32)],
        PortArchetype::NorthAmericanFarming => seq![(GoodId(PROVISIONS), 600u32), (GoodId(NAVAL_STORES), 300u32), (GoodId(RUM), 100u32)],
        PortArchetype::SpanishTreasure => seq![(GoodId(SILVER), 50u32), (GoodId(PROVISIONS), 300u32)],
        PortArchetype::SpanishEntrepot => seq![(GoodId(SUGAR), 200u32), (GoodId(TOBACCO), 150u32), (GoodId(PROVISIONS), 200u32)],
        PortArchetype::PirateHaven => seq![(GoodId(PROVISIONS), 30u32)],
        PortArchetype::Minor => seq![(GoodId(PROVISIONS), 20u32)],
        PortArchetype::EuropeanLondon => seq![(GoodId(MANUFACTURES), 2000u32), (GoodId(PROVISIONS), 1000u32), (GoodId(GUNPOWDER), 80u32), (GoodId(CANNON_SHOT), 120u32)],
        PortArchetype::EuropeanAmsterdam => seq![(GoodId(MANUFACTURES), 1200u32), (GoodId(NAVAL_STORES), 300u32), (GoodId(PROVISIONS), 800u32), (GoodId(GUNPOWDER), 60u32), (GoodId(CANNON_SHOT), 100u32)],
        PortArchetype::EuropeanCadiz => seq![(GoodId(MANUFACTURES), 300u32), (GoodId(PROVISIONS), 600u32), (GoodId(GUNPOWDER), 30u32), (GoodId(CANNON_SHOT), 50u32)],
        PortArchetype::EuropeanNantes => seq![(GoodId(MANUFACTURES), 800u32), (GoodId(RUM), 200u32), (GoodId(PROVISIONS), 700u32), (GoodId(GUNPOWDER), 40u32)],
        PortArchetype::AfricanElmina => seq![(GoodId(ENSLAVED_PERSONS), 300u32), (GoodId(PROVISIONS), 80u32)],
        PortArchetype::AfricanOuidah => seq![(GoodId(ENSLAVED_PERSONS), 400u32), (GoodId(PROVISIONS), 100u32)],
    }
}

/// What an archetype consumes each month, in tenths of a ton.
pub open spec fn recipe_inputs(a: PortArchetype) -> Seq<(GoodId, u32)> {
    match a {
        PortArchetype::SugarIsland => seq![(GoodId(PROVISIONS), 120u32), (GoodId(MANUFACTURES), 60u32), (GoodId(ENSLAVED_PERSONS), 30u32), (GoodId(NAVAL_STORES), 20u32)],
        PortArchetype::TobaccoColony => seq![(GoodId(PROVISIONS), 100u32), (GoodId(MANUFACTURES), 60u32), (GoodId(ENSLAVED_PERSONS), 30u32)],
        PortArchetype::NorthAmericanFarming => seq![(GoodId(SUGAR), 150u32), (GoodId(MOLASSES), 250u32), (GoodId(MANUFACTURES), 100u32)],
        PortArchetype::SpanishTreasure => seq![(GoodId(MANUFACTURES), 80u32), (GoodId(ENSLAVED_PERSONS), 20u32)],
        PortArchetype::SpanishEntrepot => seq![(GoodId(MANUFACTURES), 50u32)],
        PortArchetype::PirateHaven => seq![(GoodId(PROVISIONS), 40u32), (GoodId(RUM), 30u32), (GoodId(MANUFACTURES), 20u32)],
        PortArchetype::Minor => seq![(GoodId(PROVISIONS), 20u32), (GoodId(MANUFACTURES), 10u32)],
        PortArchetype::EuropeanLondon => seq![(GoodId(SUGAR), 2000u32), (GoodId(TOBACCO), 800u32), (GoodId(RUM), 300u32), (GoodId(MOLASSES), 300u32), (GoodId(NAVAL_STORES), 200u32), (GoodId(SILVER), 3u32)],
        PortArchetype::EuropeanAmsterdam => seq![(GoodId(SUGAR), 1200u32), (GoodId(TOBACCO), 300u32), (GoodId(RUM), 150u32), (GoodId(MOLASSES), 150u32), (GoodId(SILVER), 2u32)],
        PortArchetype::EuropeanCadiz => seq![(GoodId(SILVER), 10u32), (GoodId(SUGAR), 400u32), (GoodId(TOBACCO), 200u32)],
        PortArchetype::EuropeanNantes => seq![(GoodId(SUGAR), 800u32), (GoodId(TOBACCO), 300u32), (GoodId(MOLASSES), 200u32)],
        PortArchetype::AfricanElmina => seq![(GoodId(MANUFACTURES), 120u32), (GoodId(RUM), 40u32), (GoodId(TOBACCO), 30u32)],
        PortArchetype::AfricanOuidah => seq![(GoodId(MANUFACTURES), 80u32), (GoodId(RUM), 80u32), (GoodId(TOBACCO), 40u32)],
    }
}

fn table_of(outputs: &[(u8, u32)], inputs: &[(u8, u32)]) -> (t: RecipeTable)
    ensures
        t.outputs@ == outputs@.map_values(|p: (u8, u32)| (GoodId(p.0), p.1)),
        t.inputs@ == inputs@.map_values(|p: (u8, u32)| (GoodId(p.0), p.1)),
{
    let mut o: Vec<(GoodId, u32)> = Vec::new();
    let mut i: usize = 0;
    while i < outputs.len()
        invariant
            i <= outputs@.len(),
            o@ == outputs@.subrange(0, i as int).map_values(|p: (u8, u32)| (GoodId(p.0), p.1)),
        decreases outputs@.len() - i,
    {
        o.push((GoodId(outputs[i].0), outputs[i].1));
        i = i + 1;
        assert(o@ =~= outputs@.subrange(0, i as int).map_values(|p: (u8, u32)| (GoodId(p.0), p.1)));
    }
    assert(outputs@.subrange(0, outputs@.len() as int) =~= outputs@);
    let mut n: Vec<(GoodId, u32)> = Vec::new();
    let mut j: usize = 0;
    while j < inputs.len()
        invariant
            j <= inputs@.len(),
            n@ == inputs@.subrange(0, j as int).map_values(|p: (u8, u32)| (GoodId(p.0), p.1)),
        decreases inputs@.len() - j,
    {
        n.push((GoodId(inputs[j].0), inputs[j].1));
        j = j + 1;
        assert(n@ =~= inputs@.subrange(0, j as int).map_values(|p: (u8, u32)| (GoodId(p.0), p.1)));
    }
    assert(inputs@.subrange(0, inputs@.len() as int) =~= inputs@);
    RecipeTable { outputs: o, inputs: n }
}

impl PortArchetype {
    /// The archetype's default monthly recipe (historical estimates, at
    /// baseline prosperity).
    pub fn recipe_table(self) -> (t: RecipeTable)
        ensures
            t.outputs@ == recipe_outputs(self),
            t.inputs@ == recipe_inputs(self),
    {
        match self {
            PortArchetype::SugarIsland => {
                let o: [(u8, u32); 4] = [(SUGAR, 800), (MOLASSES, 300), (RUM, 150), (PROVISIONS, 50)];
                let i: [(u8, u32); 4] = [(PROVISIONS, 120), (MANUFACTURES, 60), (ENSLAVED_PERSONS, 30), (NAVAL_STORES, 20)];
                let t = table_of(&o, &i);
                assert(t.outputs@ =~= recipe_outputs(self));
                assert(t.inputs@ =~= recipe_inputs(self));
                t
            },
            PortArchetype::TobaccoColony => {
                let o: [(u8, u32); 2] = [(TOBACCO, 1000), (PROVISIONS, 60)];
                let i: [(u8, u32); 3] = [(PROVISIONS, 100), (MANUFACTURES, 60), (ENSLAVED_PERSONS, 30)];
                let t = table_of(&o, &i);
                assert(t.outputs@ =~= recipe_outputs(self));
                assert(t.inputs@ =~= recipe_inputs(self));
                t
            },
            PortArchetype::NorthAmericanFarming => {
                let o: [(u8, u32); 3] = [(PROVISIONS, 600), (NAVAL_STORES, 300), (RUM, 100)];
                let i: [(u8, u32); 3] = [(SUGAR, 150), (MOLASSES, 250), (MANUFACTURES, 100)];
                let t = table_of(&o, &i);
                assert(t.outputs@ =~= recipe_outputs(self));
                assert(t.inputs@ =~= recipe_inputs(self));
                t
            },
            PortArchetype::SpanishTreasure => {
                let o: [(u8, u32); 2] = [(SILVER, 50), (PROVISIONS, 300)];
                let i: [(u8, u32); 2] = [(MANUFACTURES, 80), (ENSLAVED_PERSONS, 20)];
                let t = table_of(&o, &i);
                assert(t.outputs@ =~= recipe_outputs(self));
                assert(t.inputs@ =~= recipe_inputs(self));
                t
            },
            PortArchetype::SpanishEntrepot => {
                let o: [(u8, u32); 3] = [(SUGAR, 200), (TOBACCO, 150), (PROVISIONS, 200)];
                let i: [(u8, u32); 1] = [(MANUFACTURES, 50)];
                let t = table_of(&o, &i);
                assert(t.outputs@ =~= recipe_outputs(self));
                assert(t.inputs@ =~= recipe_inputs(self));
                t
            },
            PortArchetype::PirateHaven => {
                let o: [(u8, u32); 1] = [(PROVISIONS, 30)];
                let i: [(u8, u32); 3] = [(PROVISIONS, 40), (RUM, 30), (MANUFACTURES, 20)];
                let t = table_of(&o, &i);
                assert(t.outputs@ =~= recipe_outputs(self));
                assert(t.inputs@ =~= recipe_inputs(self));
                t
            },
            PortArchetype::Minor => {
                let o: [(u8, u32); 1] = [(PROVISIONS, 20)];
                let i: [(u8, u32); 2] = [(PROVISIONS, 20), (MANUFACTURES, 10)];
                let t = table_of(&o, &i);
                assert(t.outputs@ =~= recipe_outputs(self));
                assert(t.inputs@ =~= recipe_inputs(self));
                t
            },
            PortArchetype::EuropeanLondon => {
                let o: [(u8, u32); 4] = [(MANUFACTURES, 2000), (PROVISIONS, 1000), (GUNPOWDER, 80), (CANNON_SHOT, 120)];
                let i: [(u8, u32); 6] = [(SUGAR, 2000), (TOBACCO, 800), (RUM, 300), (MOLASSES, 300), (NAVAL_STORES, 200), (SILVER, 3)];
                let t = table_of(&o, &i);
                assert(t.outputs@ =~= recipe_outputs(self));
                assert(t.inputs@ =~= recipe_inputs(self));
                t
            },
            PortArchetype::EuropeanAmsterdam => {
                let o: [(u8, u32); 5] = [(MANUFACTURES, 1200), (NAVAL_STORES, 300), (PROVISIONS, 800), (GUNPOWDER, 60), (CANNON_SHOT, 100)];
                let i: [(u8, u32); 5] = [(SUGAR, 1200), (TOBACCO, 300), (RUM, 150), (MOLASSES, 150), (SILVER, 2)];
                let t = table_of(&o, &i);
                assert(t.outputs@ =~= recipe_outputs(self));
                assert(t.inputs@ =~= recipe_inputs(self));
                t
            },
            PortArchetype::EuropeanCadiz => {
                let o: [(u8, u32); 4] = [(MANUFACTURES, 300), (PROVISIONS, 600), (GUNPOWDER, 30), (CANNON_SHOT, 50)];
                let i: [(u8, u32); 3] = [(SILVER, 10), (SUGAR, 400), (TOBACCO, 200)];
                let t = table_of(&o, &i);
                assert(t.outputs@ =~= recipe_outputs(self));
                assert(t.inputs@ =~= recipe_inputs(self));
                t
            },
            PortArchetype::EuropeanNantes => {
                let o: [(u8, u32); 4] = [(MANUFACTURES, 800), (RUM, 200), (PROVISIONS, 700), (GUNPOWDER, 40)];
                let i: [(u8, u32); 3] = [(SUGAR, 800), (TOBACCO, 300), (MOLASSES, 200)];
                let t = table_of(&o, &i);
                assert(t.outputs@ =~= recipe_outputs(self));
                assert(t.inputs@ =~= recipe_inputs(self));
                t
            },
            PortArchetype::AfricanElmina => {
                let o: [(u8, u32); 2] = [(ENSLAVED_PERSONS, 300), (PROVISIONS, 80)];
                let i: [(u8, u32); 3] = [(MANUFACTURES, 120), (RUM, 40), (TOBACCO, 30)];
                let t = table_of(&o, &i);
                assert(t.outputs@ =~= recipe_outputs(self));
                assert(t.inputs@ =~= recipe_inputs(self));
                t
            },
            PortArchetype::AfricanOuidah => {
                let o: [(u8, u32); 2] = [(ENSLAVED_PERSONS, 400), (PROVISIONS, 100)];
                let i: [(u8, u32); 3] = [(MANUFACTURES, 80), (RUM, 80), (TOBACCO, 40)];
                let t = table_of(&o, &i);
                assert(t.outputs@ =~= recipe_outputs(self));
                assert(t.inputs@ =~= recipe_inputs(self));
                t
            },
        }
    }
}

/// The archetype is one of the European ports.
pub open spec fn is_european(a: PortArchetype) -> bool {
    a is EuropeanLondon || a is EuropeanAmsterdam || a is EuropeanCadiz || a is EuropeanNantes
}

/// The archetype is one of the West African slave-trade ports.
pub open spec fn is_african(a: PortArchetype) -> bool {
    a is AfricanElmina || a is AfricanOuidah
}

/// `s` lists good `g`.
pub open spec fn lists_good(s: Seq<(GoodId, u32)>, g: u8) -> bool {
    exists|i: int| 0 <= i < s.len() && (#[trigger] s[i]).0 == GoodId(g)
}

/// Every European port is a net food producer: its recipe produces
/// provisions as well as manufactures.
pub proof fn lemma_european_ports_produce_food_and_manufactures(a: PortArchetype)
    requires
        is_european(a),
    ensures
        lists_good(recipe_outputs(a), PROVISIONS),
        lists_good(recipe_outputs(a), MANUFACTURES),
{
    let s = recipe_outputs(a);
    match a {
        PortArchetype::EuropeanLondon => { assert(s[1].0 == GoodId(PROVISIONS)); assert(s[0].0 == GoodId(MANUFACTURES)); },
        PortArchetype::EuropeanAmsterdam => { assert(s[2].0 == GoodId(PROVISIONS)); assert(s[0].0 == GoodId(MANUFACTURES)); },
        PortArchetype::EuropeanCadiz => { assert(s[1].0 == GoodId(PROVISIONS)); assert(s[0].0 == GoodId(MANUFACTURES)); },
        PortArchetype::EuropeanNantes => { assert(s[2].0 == GoodId(PROVISIONS)); assert(s[0].0 == GoodId(MANUFACTURES)); },
        _ => {},
    }
}

/// West African slave-coast traders took goods, not coin: their recipes
/// consume no silver.
pub proof fn lemma_african_ports_take_no_silver(a: PortArchetype)
    requires
        is_african(a),
    ensures
        !lists_good(recipe_inputs(a), SILVER),
{
}

/// No recipe lists a good twice in the same list, every listed good is
/// addressable by a cargo hold, and every quantity is positive.
pub proof fn lemma_recipe_lists_are_well_formed(a: PortArchetype)
    ensures
        forall|i: int, j: int| 0 <= i < j < recipe_outputs(a).len() ==> (#[trigger] recipe_outputs(a)[i]).0 != (#[trigger] recipe_outputs(a)[j]).0,
        forall|i: int, j: int| 0 <= i < j < recipe_inputs(a).len() ==> (#[trigger] recipe_inputs(a)[i]).0 != (#[trigger] recipe_inputs(a)[j]).0,
        forall|i: int| 0 <= i < recipe_outputs(a).len() ==> (#[trigger] recipe_outputs(a)[i]).0.0 < crate::cargo::CARGO_SLOTS && recipe_outputs(a)[i].1 > 0,
        forall|i: int| 0 <= i < recipe_inputs(a).len() ==> (#[trigger] recipe_inputs(a)[i]).0.0 < crate::cargo::CARGO_SLOTS && recipe_inputs(a)[i].1 > 0,
{
}

/// Silver is mined only at the Spanish treasure ports: an archetype's
/// recipe produces silver exactly when it is a treasure port, which mints
/// 5 t of it (50 tenths) a month.
pub proof fn lemma_only_treasure_ports_mint_silver(a: PortArchetype)
    ensures
        lists_good(recipe_outputs(a), SILVER) <==> a == PortArchetype::SpanishTreasure,
        a == PortArchetype::SpanishTreasure ==> recipe_outputs(a).contains((GoodId(SILVER), 50u32)),
{
    let s = recipe_outputs(a);
    if a == PortArchetype::SpanishTreasure {
        assert(s[0] == (GoodId(SILVER), 50u32));
    } else {
        assert forall|i: int| 0 <= i < s.len() implies (#[trigger] s[i]).0 != GoodId(SILVER) by {}
    }
}

} // verus!
