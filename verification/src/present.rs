//! One line of text per record. An absent optional field renders as the
//! explicit marker `N/A`, so the line's column structure is the same for
//! every record.

use vstd::prelude::*;
use vstd::string::StringExecFns;
use crate::decode::Comet;
use crate::decode::SpaceProgram;
use crate::decode::Star;

verus! {

/// The field's text, or the `N/A` marker where it is absent.
pub open spec fn spec_text_or_na(o: Option<String>) -> Seq<char> {
    match o {
        Some(s) => s@,
        None => "N/A"@,
    }
}

/// The line for one comet record.
pub open spec fn spec_comet_line(c: Comet) -> Seq<char> {
    "Name: "@ + c.name@ + ", Close Approach Date: "@ + spec_text_or_na(c.close_approach_date)
        + ", Miss Distance (km): "@ + spec_text_or_na(c.miss_distance_km)
}

/// The line for one space-program record.
pub open spec fn spec_program_line(p: SpaceProgram) -> Seq<char> {
    "Name: "@ + p.name@ + ", Description: "@ + spec_text_or_na(p.description) + ", Agency: "@
        + spec_text_or_na(p.agency)
}

/// Exactly [`spec_comet_line`].
pub fn format_comet(c: &Comet) -> (r: String)
    ensures
        r@ == spec_comet_line(*c),
{
    let mut r = String::new();
    r.append("Name: ");
    r.append(c.name.as_str());
    r.append(", Close Approach Date: ");
    match &c.close_approach_date {
        Some(d) => r.append(d.as_str()),
        None => r.append("N/A"),
    }
    r.append(", Miss Distance (km): ");
    match &c.miss_distance_km {
        Some(m) => r.append(m.as_str()),
        None => r.append("N/A"),
    }
    proof {
        assert(r@ =~= spec_comet_line(*c));
    }
    r
}

/// Exactly [`spec_program_line`].
pub fn format_program(p: &SpaceProgram) -> (r: String)
    ensures
        r@ == spec_program_line(*p),
{
    let mut r = String::new();
    r.append("Name: ");
    r.append(p.name.as_str());
    r.append(", Description: ");
    match &p.description {
        Some(d) => r.append(d.as_str()),
        None => r.append("N/A"),
    }
    r.append(", Agency: ");
    match &p.agency {
        Some(a) => r.append(a.as_str()),
        None => r.append("N/A"),
    }
    proof {
        assert(r@ =~= spec_program_line(*p));
    }
    r
}

/// The line for one star record; every field is present by construction.
pub open spec fn spec_star_line(s: Star) -> Seq<char> {
    "Name: "@ + s.name@ + ", Distance (ly): "@ + s.distance_ly@ + ", Constellation: "@
        + s.constellation@
}

/// Exactly [`spec_star_line`].
pub fn format_star(s: &Star) -> (r: String)
    ensures
        r@ == spec_star_line(*s),
{
    let mut r = String::new();
    r.append("Name: ");
    r.append(s.name.as_str());
    r.append(", Distance (ly): ");
    r.append(s.distance_ly.as_str());
    r.append(", Constellation: ");
    r.append(s.constellation.as_str());
    proof {
        assert(r@ =~= spec_star_line(*s));
    }
    r
}

} // verus!
