//! The port table: which archetype each named port of the map has.

use vstd::prelude::*;

use crate::market::{archetype_of, PortArchetype};

verus! {

/// Length and first three letters of a name: enough to tell the port
/// names of the table apart.
pub open spec fn name_tag(s: Seq<char>) -> (int, char, char, char) {
    (s.len() as int, s[0], s[1], s[2])
}

/// The tags of the port names: no two names of the table share one.
proof fn lemma_name_tags()
    ensures
        name_tag("Amsterdam"@) == (9int, 'A', 'm', 's'),
        name_tag("Basse-Terre"@) == (11int, 'B', 'a', 's'),
        name_tag("Basseterre"@) == (10int, 'B', 'a', 's'),
        name_tag("Bermuda"@) == (7int, 'B', 'e', 'r'),
        name_tag("Boston"@) == (6int, 'B', 'o', 's'),
        name_tag("Bridgetown"@) == (10int, 'B', 'r', 'i'),
        name_tag("Cadiz"@) == (5int, 'C', 'a', 'd'),
        name_tag("Cap-Français"@) == (12int, 'C', 'a', 'p'),
        name_tag("Cartagena"@) == (9int, 'C', 'a', 'r'),
        name_tag("Cayenne"@) == (7int, 'C', 'a', 'y'),
        name_tag("Charleston"@) == (10int, 'C', 'h', 'a'),
        name_tag("Elmina"@) == (6int, 'E', 'l', 'm'),
        name_tag("English Harbour"@) == (15int, 'E', 'n', 'g'),
        name_tag("Fort-Royal"@) == (10int, 'F', 'o', 'r'),
        name_tag("Havana"@) == (6int, 'H', 'a', 'v'),
        name_tag("Kingston"@) == (8int, 'K', 'i', 'n'),
        name_tag("London"@) == (6int, 'L', 'o', 'n'),
        name_tag("Nantes"@) == (6int, 'N', 'a', 'n'),
        name_tag("Nassau"@) == (6int, 'N', 'a', 's'),
        name_tag("New York"@) == (8int, 'N', 'e', 'w'),
        name_tag("Ouidah"@) == (6int, 'O', 'u', 'i'),
        name_tag("Paramaribo"@) == (10int, 'P', 'a', 'r'),
        name_tag("Petit-Goâve"@) == (11int, 'P', 'e', 't'),
        name_tag("Philadelphia"@) == (12int, 'P', 'h', 'i'),
        name_tag("Port Royal"@) == (10int, 'P', 'o', 'r'),
        name_tag("Portobelo"@) == (9int, 'P', 'o', 'r'),
        name_tag("San Juan"@) == (8int, 'S', 'a', 'n'),
        name_tag("Santiago de Cuba"@) == (16int, 'S', 'a', 'n'),
        name_tag("Santo Domingo"@) == (13int, 'S', 'a', 'n'),
        name_tag("St. Eustatius"@) == (13int, 'S', 't', '.'),
        name_tag("Tobago"@) == (6int, 'T', 'o', 'b'),
        name_tag("Tortuga"@) == (7int, 'T', 'o', 'r'),
        name_tag("Willemstad"@) == (10int, 'W', 'i', 'l'),
        ""@.len() == 0,
{
    assert(name_tag("Amsterdam"@) == (9int, 'A', 'm', 's')) by { reveal_strlit("Amsterdam"); }
    assert(name_tag("Basse-Terre"@) == (11int, 'B', 'a', 's')) by { reveal_strlit("Basse-Terre"); }
    assert(name_tag("Basseterre"@) == (10int, 'B', 'a', 's')) by { reveal_strlit("Basseterre"); }
    assert(name_tag("Bermuda"@) == (7int, 'B', 'e', 'r')) by { reveal_strlit("Bermuda"); }
    assert(name_tag("Boston"@) == (6int, 'B', 'o', 's')) by { reveal_strlit("Boston"); }
    assert(name_tag("Bridgetown"@) == (10int, 'B', 'r', 'i')) by { reveal_strlit("Bridgetown"); }
    assert(name_tag("Cadiz"@) == (5int, 'C', 'a', 'd')) by { reveal_strlit("Cadiz"); }
    assert(name_tag("Cap-Français"@) == (12int, 'C', 'a', 'p')) by { reveal_strlit("Cap-Français"); }
    assert(name_tag("Cartagena"@) == (9int, 'C', 'a', 'r')) by { reveal_strlit("Cartagena"); }
    assert(name_tag("Cayenne"@) == (7int, 'C', 'a', 'y')) by { reveal_strlit("Cayenne"); }
    assert(name_tag("Charleston"@) == (10int, 'C', 'h', 'a')) by { reveal_strlit("Charleston"); }
    assert(name_tag("Elmina"@) == (6int, 'E', 'l', 'm')) by { reveal_strlit("Elmina"); }
    assert(name_tag("English Harbour"@) == (15int, 'E', 'n', 'g')) by { reveal_strlit("English Harbour"); }
    assert(name_tag("Fort-Royal"@) == (10int, 'F', 'o', 'r')) by { reveal_strlit("Fort-Royal"); }
    assert(name_tag("Havana"@) == (6int, 'H', 'a', 'v')) by { reveal_strlit("Havana"); }
    assert(name_tag("Kingston"@) == (8int, 'K', 'i', 'n')) by { reveal_strlit("Kingston"); }
    assert(name_tag("London"@) == (6int, 'L', 'o', 'n')) by { reveal_strlit("London"); }
    assert(name_tag("Nantes"@) == (6int, 'N', 'a', 'n')) by { reveal_strlit("Nantes"); }
    assert(name_tag("Nassau"@) == (6int, 'N', 'a', 's')) by { reveal_strlit("Nassau"); }
    assert(name_tag("New York"@) == (8int, 'N', 'e', 'w')) by { reveal_strlit("New York"); }
    assert(name_tag("Ouidah"@) == (6int, 'O', 'u', 'i')) by { reveal_strlit("Ouidah"); }
    assert(name_tag("Paramaribo"@) == (10int, 'P', 'a', 'r')) by { reveal_strlit("Paramaribo"); }
    assert(name_tag("Petit-Goâve"@) == (11int, 'P', 'e', 't')) by { reveal_strlit("Petit-Goâve"); }
    assert(name_tag("Philadelphia"@) == (12int, 'P', 'h', 'i')) by { reveal_strlit("Philadelphia"); }
    assert(name_tag("Port Royal"@) == (10int, 'P', 'o', 'r')) by { reveal_strlit("Port Royal"); }
    assert(name_tag("Portobelo"@) == (9int, 'P', 'o', 'r')) by { reveal_strlit("Portobelo"); }
    assert(name_tag("San Juan"@) == (8int, 'S', 'a', 'n')) by { reveal_strlit("San Juan"); }
    assert(name_tag("Santiago de Cuba"@) == (16int, 'S', 'a', 'n')) by { reveal_strlit("Santiago de Cuba"); }
    assert(name_tag("Santo Domingo"@) == (13int, 'S', 'a', 'n')) by { reveal_strlit("Santo Domingo"); }
    assert(name_tag("St. Eustatius"@) == (13int, 'S', 't', '.')) by { reveal_strlit("St. Eustatius"); }
    assert(name_tag("Tobago"@) == (6int, 'T', 'o', 'b')) by { reveal_strlit("Tobago"); }
    assert(name_tag("Tortuga"@) == (7int, 'T', 'o', 'r')) by { reveal_strlit("Tortuga"); }
    assert(name_tag("Willemstad"@) == (10int, 'W', 'i', 'l')) by { reveal_strlit("Willemstad"); }
    reveal_strlit("");
}

/// The port table, name by name (alphabetically): Charleston grows
/// tobacco, Cartagena and Portobelo ship silver, Bermuda farms naval
/// stores with the North American ports; a name off the list is a minor
/// port. Every archetype is the archetype of some name.
pub proof fn lemma_port_archetypes()
    ensures
        archetype_of("Amsterdam"@) == PortArchetype::EuropeanAmsterdam,
        archetype_of("Basse-Terre"@) == PortArchetype::SugarIsland,
        archetype_of("Basseterre"@) == PortArchetype::SugarIsland,
        archetype_of("Bermuda"@) == PortArchetype::NorthAmericanFarming,
        archetype_of("Boston"@) == PortArchetype::NorthAmericanFarming,
        archetype_of("Bridgetown"@) == PortArchetype::SugarIsland,
        archetype_of("Cadiz"@) == PortArchetype::EuropeanCadiz,
        archetype_of("Cap-Français"@) == PortArchetype::SugarIsland,
        archetype_of("Cartagena"@) == PortArchetype::SpanishTreasure,
        archetype_of("Cayenne"@) == PortArchetype::SugarIsland,
        archetype_of("Charleston"@) == PortArchetype::TobaccoColony,
        archetype_of("Elmina"@) == PortArchetype::AfricanElmina,
        archetype_of("English Harbour"@) == PortArchetype::SugarIsland,
        archetype_of("Fort-Royal"@) == PortArchetype::SugarIsland,
        archetype_of("Havana"@) == PortArchetype::SpanishEntrepot,
        archetype_of("Kingston"@) == PortArchetype::SugarIsland,
        archetype_of("London"@) == PortArchetype::EuropeanLondon,
        archetype_of("Nantes"@) == PortArchetype::EuropeanNantes,
        archetype_of("Nassau"@) == PortArchetype::PirateHaven,
        archetype_of("New York"@) == PortArchetype::NorthAmericanFarming,
        archetype_of("Ouidah"@) == PortArchetype::AfricanOuidah,
        archetype_of("Paramaribo"@) == PortArchetype::SugarIsland,
        archetype_of("Petit-Goâve"@) == PortArchetype::SugarIsland,
        archetype_of("Philadelphia"@) == PortArchetype::NorthAmericanFarming,
        archetype_of("Port Royal"@) == PortArchetype::SugarIsland,
        archetype_of("Portobelo"@) == PortArchetype::SpanishTreasure,
        archetype_of("San Juan"@) == PortArchetype::SpanishEntrepot,
        archetype_of("Santiago de Cuba"@) == PortArchetype::SpanishEntrepot,
        archetype_of("Santo Domingo"@) == PortArchetype::SpanishEntrepot,
        archetype_of("St. Eustatius"@) == PortArchetype::SugarIsland,
        archetype_of("Tobago"@) == PortArchetype::PirateHaven,
        archetype_of("Tortuga"@) == PortArchetype::PirateHaven,
        archetype_of("Willemstad"@) == PortArchetype::SugarIsland,
        archetype_of(""@) == PortArchetype::Minor,
{
    lemma_name_tags();
}

} // verus!
