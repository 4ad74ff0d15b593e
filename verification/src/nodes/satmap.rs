//! The color presets of the satellite-map node.

use vstd::prelude::*;

use crate::nodes::same_text;

verus! {

/// A named gradient the satellite-map node colors a heightmap with.
#[derive(Debug, Clone, Copy, PartialEq, Eq, Hash, Structural)]
pub enum SatMapPreset {
    Grayscale,
    Desert,
    Alpine,
    Tundra,
    Volcanic,
    TropicalIslands,
    Arctic,
}

/// The name of each preset, as the node's parameter stores it.
pub open spec fn preset_name(p: SatMapPreset) -> Seq<char> {
    match p {
        SatMapPreset::Grayscale => "Grayscale"@,
        SatMapPreset::Desert => "Desert"@,
        SatMapPreset::Alpine => "Alpine"@,
        SatMapPreset::Tundra => "Tundra"@,
        SatMapPreset::Volcanic => "Volcanic"@,
        SatMapPreset::TropicalIslands => "Tropical Islands"@,
        SatMapPreset::Arctic => "Arctic"@,
    }
}

/// The preset named `s`, if any.
pub open spec fn preset_named(s: Seq<char>) -> Option<SatMapPreset> {
    if s == "Grayscale"@ {
        Some(SatMapPreset::Grayscale)
    } else if s == "Desert"@ {
        Some(SatMapPreset::Desert)
    } else if s == "Alpine"@ {
        Some(SatMapPreset::Alpine)
    } else if s == "Tundra"@ {
        Some(SatMapPreset::Tundra)
    } else if s == "Volcanic"@ {
        Some(SatMapPreset::Volcanic)
    } else if s == "Tropical Islands"@ {
        Some(SatMapPreset::TropicalIslands)
    } else if s == "Arctic"@ {
        Some(SatMapPreset::Arctic)
    } else {
        None
    }
}

impl SatMapPreset {
    /// `Grayscale`, the preset a new node starts with.
    pub fn default_preset() -> (p: Self)
        ensures
            p == SatMapPreset::Grayscale,
    {
        SatMapPreset::Grayscale
    }

    pub fn to_str(self) -> (r: &'static str)
        ensures
            r@ == preset_name(self),
    {
        match self {
            SatMapPreset::Grayscale => "Grayscale",
            SatMapPreset::Desert => "Desert",
            SatMapPreset::Alpine => "Alpine",
            SatMapPreset::Tundra => "Tundra",
            SatMapPreset::Volcanic => "Volcanic",
            SatMapPreset::TropicalIslands => "Tropical Islands",
            SatMapPreset::Arctic => "Arctic",
        }
    }

    pub fn from_str(s: &str) -> (r: Option<Self>)
        ensures
            r == preset_named(s@),
    {
        if same_text(s, "Grayscale") {
            Some(SatMapPreset::Grayscale)
        } else if same_text(s, "Desert") {
            Some(SatMapPreset::Desert)
        } else if same_text(s, "Alpine") {
            Some(SatMapPreset::Alpine)
        } else if same_text(s, "Tundra") {
            Some(SatMapPreset::Tundra)
        } else if same_text(s, "Volcanic") {
            Some(SatMapPreset::Volcanic)
        } else if same_text(s, "Tropical Islands") {
            Some(SatMapPreset::TropicalIslands)
        } else if same_text(s, "Arctic") {
            Some(SatMapPreset::Arctic)
        } else {
            None
        }
    }

    /// Every preset's name, in the order the node's menu lists them.
    pub fn all_options() -> (r: Vec<&'static str>)
        ensures
            r@.map_values(|s: &'static str| s@) == seq![
                "Grayscale"@,
                "Desert"@,
                "Alpine"@,
                "Tundra"@,
                "Volcanic"@,
                "Tropical Islands"@,
                "Arctic"@,
            ],
    {
        let r = vec!["Grayscale", "Desert", "Alpine", "Tundra", "Volcanic", "Tropical Islands", "Arctic"];
        proof {
            assert(r@.map_values(|s: &'static str| s@) =~= seq![
                "Grayscale"@,
                "Desert"@,
                "Alpine"@,
                "Tundra"@,
                "Volcanic"@,
                "Tropical Islands"@,
                "Arctic"@,
            ]);
        }
        r
    }
}

/// A preset's name reads back as that preset.
pub proof fn lemma_preset_name_roundtrip(p: SatMapPreset)
    ensures
        preset_named(preset_name(p)) == Some(p),
{
    reveal_strlit("Grayscale");
    reveal_strlit("Desert");
    reveal_strlit("Alpine");
    reveal_strlit("Tundra");
    reveal_strlit("Volcanic");
    reveal_strlit("Tropical Islands");
    reveal_strlit("Arctic");
    match p {
        SatMapPreset::Grayscale => {
        },
        SatMapPreset::Desert => {
            assert("Desert"@.len() != "Grayscale"@.len());
        },
        SatMapPreset::Alpine => {
            assert("Alpine"@.len() != "Grayscale"@.len());
            assert("Alpine"@[0] != "Desert"@[0]);
        },
        SatMapPreset::Tundra => {
            assert("Tundra"@.len() != "Grayscale"@.len());
            assert("Tundra"@[0] != "Desert"@[0]);
            assert("Tundra"@[0] != "Alpine"@[0]);
        },
        SatMapPreset::Volcanic => {
            assert("Volcanic"@.len() != "Grayscale"@.len());
            assert("Volcanic"@.len() != "Desert"@.len());
            assert("Volcanic"@.len() != "Alpine"@.len());
            assert("Volcanic"@.len() != "Tundra"@.len());
        },
        SatMapPreset::TropicalIslands => {
            assert("Tropical Islands"@.len() != "Grayscale"@.len());
            assert("Tropical Islands"@.len() != "Desert"@.len());
            assert("Tropical Islands"@.len() != "Alpine"@.len());
            assert("Tropical Islands"@.len() != "Tundra"@.len());
            assert("Tropical Islands"@.len() != "Volcanic"@.len());
        },
        SatMapPreset::Arctic => {
            assert("Arctic"@.len() != "Grayscale"@.len());
            assert("Arctic"@[0] != "Desert"@[0]);
            assert("Arctic"@[1] != "Alpine"@[1]);
            assert("Arctic"@[0] != "Tundra"@[0]);
            assert("Arctic"@.len() != "Volcanic"@.len());
            assert("Arctic"@.len() != "Tropical Islands"@.len());
        },
    }
}

/// Reading a name that names a preset, then writing that preset's name, gives the name back.
pub proof fn lemma_preset_named_roundtrip(s: Seq<char>)
    requires
        preset_named(s) is Some,
    ensures
        preset_name(preset_named(s).unwrap()) == s,
{
}

} // verus!
