//! Chemical elements and their text symbols.

use vstd::prelude::*;
use vstd::string::StrSliceExecFns;

verus! {

/// The chemical elements the viewer distinguishes, plus a catch-all for
/// anything it does not.
#[derive(Clone, Copy, PartialEq, Eq, Structural, Debug)]
pub enum Element {
    Hydrogen,
    Helium,
    Lithium,
    Beryllium,
    Boron,
    Carbon,
    Nitrogen,
    Oxygen,
    Fluorine,
    Neon,
    Phosphorus,
    Sulfur,
    Other,
}

/// Which element a piece of text denotes: its one- or two-letter symbol
/// or its full English name; anything else is `Other`.
pub open spec fn element_of_symbol(s: Seq<char>) -> Element {
    if s == "H"@ || s == "Hydrogen"@ {
        Element::Hydrogen
    } else if s == "He"@ || s == "Helium"@ {
        Element::Helium
    } else if s == "Li"@ || s == "Lithium"@ {
        Element::Lithium
    } else if s == "Be"@ || s == "Beryllium"@ {
        Element::Beryllium
    } else if s == "B"@ || s == "Boron"@ {
        Element::Boron
    } else if s == "C"@ || s == "Carbon"@ {
        Element::Carbon
    } else if s == "N"@ || s == "Nitrogen"@ {
        Element::Nitrogen
    } else if s == "O"@ || s == "Oxygen"@ {
        Element::Oxygen
    } else if s == "F"@ || s == "Fluorine"@ {
        Element::Fluorine
    } else if s == "Ne"@ || s == "Neon"@ {
        Element::Neon
    } else if s == "S"@ || s == "Sulfur"@ {
        Element::Sulfur
    } else if s == "P"@ || s == "Phosphorus"@ {
        Element::Phosphorus
    } else {
        Element::Other
    }
}

/// Whether two string slices hold the same characters.
fn str_eq(a: &str, b: &str) -> (r: bool)
    ensures
        r <==> a@ == b@,
{
    let alen = a.unicode_len();
    if alen != b.unicode_len() {
        proof {
            if a@ == b@ {
                assert(a@.len() == b@.len());
            }
        }
        return false;
    }
    let mut i: usize = 0;
    while i < alen
        invariant
            i <= alen,
            alen == a@.len(),
            alen == b@.len(),
            forall|k: int| 0 <= k < i as int ==> a@[k] == b@[k],
        decreases alen - i,
    {
        let ca = a.get_char(i);
        let cb = b.get_char(i);
        if ca != cb {
            proof {
                if a@ == b@ {
                    assert(a@[i as int] == b@[i as int]);
                }
            }
            return false;
        }
        i = i + 1;
    }
    proof {
        assert(a@ =~= b@);
    }
    true
}

impl Element {
    /// Parses a chemical symbol or element name.
    pub fn from_symbol(symbol: &str) -> (e: Element)
        ensures
            e == element_of_symbol(symbol@),
    {
        if str_eq(symbol, "H") || str_eq(symbol, "Hydrogen") {
            Element::Hydrogen
        } else if str_eq(symbol, "He") || str_eq(symbol, "Helium") {
            Element::Helium
        } else if str_eq(symbol, "Li") || str_eq(symbol, "Lithium") {
            Element::Lithium
        } else if str_eq(symbol, "Be") || str_eq(symbol, "Beryllium") {
            Element::Beryllium
        } else if str_eq(symbol, "B") || str_eq(symbol, "Boron") {
            Element::Boron
        } else if str_eq(symbol, "C") || str_eq(symbol, "Carbon") {
            Element::Carbon
        } else if str_eq(symbol, "N") || str_eq(symbol, "Nitrogen") {
            Element::Nitrogen
        } else if str_eq(symbol, "O") || str_eq(symbol, "Oxygen") {
            Element::Oxygen
        } else if str_eq(symbol, "F") || str_eq(symbol, "Fluorine") {
            Element::Fluorine
        } else if str_eq(symbol, "Ne") || str_eq(symbol, "Neon") {
            Element::Neon
        } else if str_eq(symbol, "S") || str_eq(symbol, "Sulfur") {
            Element::Sulfur
        } else if str_eq(symbol, "P") || str_eq(symbol, "Phosphorus") {
            Element::Phosphorus
        } else {
            Element::Other
        }
    }
}

} // verus!
