//! Decoding of the JSON responses into records.
//!
//! The comet feed is decoded tolerantly: each element stands or falls on
//! its own, and a malformed element is dropped without touching its
//! siblings. The space-program list and the star catalogue are decoded
//! atomically: one malformed element fails the whole response.

use vstd::prelude::*;
use crate::json::Json;
use crate::json::obj_get;
use crate::json::obj_get_ref;
use crate::json::parse_json;
use crate::json::spec_parse_json;

verus! {

/// A record from the near-Earth-object feed. Optional fields stay absent
/// (`None`) when the source omits them; they are never collapsed into an
/// empty string.
#[derive(Debug, Clone, PartialEq)]
pub struct Comet {
    pub name: String,
    pub close_approach_date: Option<String>,
    pub miss_distance_km: Option<String>,
}

/// A record from the launch list.
#[derive(Debug, Clone, PartialEq)]
pub struct SpaceProgram {
    pub name: String,
    pub description: Option<String>,
    pub agency: Option<String>,
}

/// A record from the star catalogue. Every field is required; the
/// distance in light-years is carried as the number's decimal text.
#[derive(Debug, Clone, PartialEq)]
pub struct Star {
    pub name: String,
    pub distance_ly: String,
    pub constellation: String,
}

/// Why a whole response was rejected. Any of these is fatal to the run.
#[derive(Debug, Clone, PartialEq)]
pub enum DecodeError {
    /// The text is not JSON at all.
    Syntax,
    /// The comet feed is not an object of date keys over arrays.
    FeedShape,
    /// The launch list is not an array of well-shaped objects.
    ListShape,
    /// The star catalogue is not an array of well-shaped objects.
    StarShape,
}

/// An optional member read as text: present only when it is a JSON string.
pub open spec fn spec_opt_text(o: Option<Json>) -> Option<String> {
    match o {
        Some(j) => match j {
            Json::Str(s) => Some(s),
            _ => None,
        },
        None => None,
    }
}

/// The miss distance of an element: either a bare string member or an
/// object member holding a `kilometers` string; anything else is absent.
pub open spec fn spec_miss_distance(o: Option<Json>) -> Option<String> {
    match o {
        Some(j) => match j {
            Json::Str(s) => Some(s),
            Json::Obj(fs) => spec_opt_text(obj_get(fs@, "kilometers"@)),
            _ => None,
        },
        None => None,
    }
}

/// One feed element as a record: `name` must be a string member, every
/// other field degrades to absent rather than failing the element.
pub open spec fn spec_decode_comet(j: Json) -> Option<Comet> {
    match j {
        Json::Obj(fs) => match obj_get(fs@, "name"@) {
            Some(n) => match n {
                Json::Str(name) => Some(
                    Comet {
                        name,
                        close_approach_date: spec_opt_text(
                            obj_get(fs@, "close_approach_date"@),
                        ),
                        miss_distance_km: spec_miss_distance(obj_get(fs@, "miss_distance"@)),
                    },
                ),
                _ => None,
            },
            None => None,
        },
        _ => None,
    }
}

/// The records of one date key's array, in order, keeping exactly the
/// elements that decode.
pub open spec fn spec_day_comets(elems: Seq<Json>) -> Seq<Comet>
    decreases elems.len(),
{
    if elems.len() == 0 {
        Seq::empty()
    } else {
        spec_day_comets(elems.drop_last()) + (match spec_decode_comet(elems.last()) {
            Some(c) => seq![c],
            None => Seq::empty(),
        })
    }
}

/// All date keys' records flattened in member order, or `None` where some
/// date key's value is not an array.
pub open spec fn spec_flatten_days(days: Seq<(String, Json)>) -> Option<Seq<Comet>>
    decreases days.len(),
{
    if days.len() == 0 {
        Some(Seq::empty())
    } else {
        match spec_flatten_days(days.drop_last()) {
            Some(front) => match days.last().1 {
                Json::Arr(elems) => Some(front + spec_day_comets(elems@)),
                _ => None,
            },
            None => None,
        }
    }
}

/// How many elements the date keys' arrays hold in all.
pub open spec fn spec_day_total(days: Seq<(String, Json)>) -> nat
    decreases days.len(),
{
    if days.len() == 0 {
        0
    } else {
        spec_day_total(days.drop_last()) + (match days.last().1 {
            Json::Arr(elems) => elems@.len(),
            _ => 0,
        })
    }
}

/// The whole comet feed: an object whose `near_earth_objects` member maps
/// date keys to arrays of elements.
pub open spec fn spec_comet_feed(j: Json) -> Result<Seq<Comet>, DecodeError> {
    match j {
        Json::Obj(fs) => match obj_get(fs@, "near_earth_objects"@) {
            Some(neo) => match neo {
                Json::Obj(days) => match spec_flatten_days(days@) {
                    Some(cs) => Ok(cs),
                    None => Err(DecodeError::FeedShape),
                },
                _ => Err(DecodeError::FeedShape),
            },
            None => Err(DecodeError::FeedShape),
        },
        _ => Err(DecodeError::FeedShape),
    }
}

/// One feed element as a record, exactly [`spec_decode_comet`].
pub fn decode_comet(j: &Json) -> (r: Option<Comet>)
    ensures
        r == spec_decode_comet(*j),
{
    match j {
        Json::Obj(fs) => {
            let name = match obj_get_ref(fs, "name") {
                Some(Json::Str(n)) => n.clone(),
                _ => {
                    return None;
                },
            };
            let close_approach_date = match obj_get_ref(fs, "close_approach_date") {
                Some(Json::Str(s)) => Some(s.clone()),
                _ => None,
            };
            let miss_distance_km = match obj_get_ref(fs, "miss_distance") {
                Some(Json::Str(s)) => Some(s.clone()),
                Some(Json::Obj(mfs)) => match obj_get_ref(mfs, "kilometers") {
                    Some(Json::Str(s)) => Some(s.clone()),
                    _ => None,
                },
                _ => None,
            };
            Some(Comet { name, close_approach_date, miss_distance_km })
        },
        _ => None,
    }
}

proof fn lemma_flatten_days_bad(days: Seq<(String, Json)>, i: int)
    requires
        0 <= i < days.len(),
        !(days[i].1 is Arr),
    ensures
        spec_flatten_days(days) is None,
    decreases days.len(),
{
    if i == days.len() - 1 {
    } else {
        assert(days.drop_last()[i] == days[i]);
        lemma_flatten_days_bad(days.drop_last(), i);
    }
}

/// The whole comet feed as records, exactly [`spec_comet_feed`].
pub fn decode_comet_feed(j: &Json) -> (r: Result<Vec<Comet>, DecodeError>)
    ensures
        match spec_comet_feed(*j) {
            Ok(cs) => r matches Ok(v) && v@ == cs,
            Err(e) => r matches Err(e2) && e2 == e,
        },
{
    let fs = match j {
        Json::Obj(fs) => fs,
        _ => {
            return Err(DecodeError::FeedShape);
        },
    };
    let neo: &Json = match obj_get_ref(fs, "near_earth_objects") {
        Some(v) => v,
        None => {
            return Err(DecodeError::FeedShape);
        },
    };
    let days = match neo {
        Json::Obj(d) => d,
        _ => {
            return Err(DecodeError::FeedShape);
        },
    };
    let mut out: Vec<Comet> = Vec::new();
    let mut i: usize = 0;
    proof {
        assert(days@.take(0) =~= Seq::<(String, Json)>::empty());
    }
    while i < days.len()
        invariant
            i <= days@.len(),
            *j == Json::Obj(*fs),
            obj_get(fs@, "near_earth_objects"@) == Some(*neo),
            *neo == Json::Obj(*days),
            spec_flatten_days(days@.take(i as int)) == Some(out@),
        decreases days@.len() - i,
    {
        proof {
            assert(days@.take(i as int + 1).drop_last() =~= days@.take(i as int));
            assert(days@.take(i as int + 1).last() == days@[i as int]);
        }
        let elems = match &days[i].1 {
            Json::Arr(elems) => elems,
            _ => {
                proof {
                    lemma_flatten_days_bad(days@, i as int);
                }
                return Err(DecodeError::FeedShape);
            },
        };
        let ghost front = out@;
        let mut k: usize = 0;
        proof {
            assert(elems@.take(0) =~= Seq::<Json>::empty());
        }
        while k < elems.len()
            invariant
                k <= elems@.len(),
                out@ == front + spec_day_comets(elems@.take(k as int)),
            decreases elems@.len() - k,
        {
            proof {
                assert(elems@.take(k as int + 1).drop_last() =~= elems@.take(k as int));
                assert(elems@.take(k as int + 1).last() == elems@[k as int]);
            }
            if let Some(c) = decode_comet(&elems[k]) {
                out.push(c);
                proof {
                    assert(out@ =~= front + spec_day_comets(elems@.take(k as int + 1)));
                }
            }
            k += 1;
        }
        proof {
            assert(elems@.take(elems@.len() as int) =~= elems@);
        }
        i += 1;
    }
    proof {
        assert(days@.take(days@.len() as int) =~= days@);
    }
    Ok(out)
}

/// An optional member that may also be JSON null: absent and null both read
/// as `None`, a string reads as itself, and any other shape fails.
pub open spec fn spec_nullable_text(o: Option<Json>) -> Option<Option<String>> {
    match o {
        None => Some(None),
        Some(j) => match j {
            Json::Null => Some(None),
            Json::Str(s) => Some(Some(s)),
            _ => None,
        },
    }
}

/// One launch-list element: `name` must be a string member; `description`
/// and `agency` may be absent or null, but a present non-string fails the
/// element (and with it the whole list).
pub open spec fn spec_decode_program(j: Json) -> Option<SpaceProgram> {
    match j {
        Json::Obj(fs) => match obj_get(fs@, "name"@) {
            Some(n) => match n {
                Json::Str(name) => match (
                    spec_nullable_text(obj_get(fs@, "description"@)),
                    spec_nullable_text(obj_get(fs@, "agency"@)),
                ) {
                    (Some(description), Some(agency)) => Some(
                        SpaceProgram { name, description, agency },
                    ),
                    _ => None,
                },
                _ => None,
            },
            None => None,
        },
        _ => None,
    }
}

/// The records of the whole list, or `None` where some element fails.
pub open spec fn spec_program_list(elems: Seq<Json>) -> Option<Seq<SpaceProgram>>
    decreases elems.len(),
{
    if elems.len() == 0 {
        Some(Seq::empty())
    } else {
        match (spec_program_list(elems.drop_last()), spec_decode_program(elems.last())) {
            (Some(front), Some(p)) => Some(front.push(p)),
            _ => None,
        }
    }
}

/// The whole launch list: a JSON array of well-shaped objects, decoded
/// atomically.
pub open spec fn spec_programs(j: Json) -> Result<Seq<SpaceProgram>, DecodeError> {
    match j {
        Json::Arr(elems) => match spec_program_list(elems@) {
            Some(ps) => Ok(ps),
            None => Err(DecodeError::ListShape),
        },
        _ => Err(DecodeError::ListShape),
    }
}

/// One launch-list element as a record, exactly [`spec_decode_program`].
pub fn decode_program(j: &Json) -> (r: Option<SpaceProgram>)
    ensures
        r == spec_decode_program(*j),
{
    match j {
        Json::Obj(fs) => {
            let name = match obj_get_ref(fs, "name") {
                Some(Json::Str(n)) => n.clone(),
                _ => {
                    return None;
                },
            };
            let description = match obj_get_ref(fs, "description") {
                None => None,
                Some(Json::Null) => None,
                Some(Json::Str(s)) => Some(s.clone()),
                _ => {
                    return None;
                },
            };
            let agency = match obj_get_ref(fs, "agency") {
                None => None,
                Some(Json::Null) => None,
                Some(Json::Str(s)) => Some(s.clone()),
                _ => {
                    return None;
                },
            };
            Some(SpaceProgram { name, description, agency })
        },
        _ => None,
    }
}

proof fn lemma_program_list_bad(elems: Seq<Json>, i: int)
    requires
        0 <= i < elems.len(),
        spec_decode_program(elems[i]) is None,
    ensures
        spec_program_list(elems) is None,
    decreases elems.len(),
{
    if i == elems.len() - 1 {
    } else {
        assert(elems.drop_last()[i] == elems[i]);
        lemma_program_list_bad(elems.drop_last(), i);
    }
}

/// The whole launch list as records, exactly [`spec_programs`]. A value of
/// any other shape — an object, say — is an error, never an empty list.
pub fn decode_programs(j: &Json) -> (r: Result<Vec<SpaceProgram>, DecodeError>)
    ensures
        match spec_programs(*j) {
            Ok(ps) => r matches Ok(v) && v@ == ps,
            Err(e) => r matches Err(e2) && e2 == e,
        },
{
    let elems = match j {
        Json::Arr(elems) => elems,
        _ => {
            return Err(DecodeError::ListShape);
        },
    };
    let mut out: Vec<SpaceProgram> = Vec::new();
    let mut k: usize = 0;
    proof {
        assert(elems@.take(0) =~= Seq::<Json>::empty());
    }
    while k < elems.len()
        invariant
            k <= elems@.len(),
            *j == Json::Arr(*elems),
            spec_program_list(elems@.take(k as int)) == Some(out@),
        decreases elems@.len() - k,
    {
        proof {
            assert(elems@.take(k as int + 1).drop_last() =~= elems@.take(k as int));
            assert(elems@.take(k as int + 1).last() == elems@[k as int]);
        }
        match decode_program(&elems[k]) {
            Some(p) => {
                out.push(p);
            },
            None => {
                proof {
                    lemma_program_list_bad(elems@, k as int);
                }
                return Err(DecodeError::ListShape);
            },
        }
        k += 1;
    }
    proof {
        assert(elems@.take(elems@.len() as int) =~= elems@);
    }
    Ok(out)
}

/// True when every element of every date key's array decodes.
pub open spec fn spec_all_elements_decode(days: Seq<(String, Json)>) -> bool {
    forall|d: int|
        0 <= d < days.len() ==> match #[trigger] days[d].1 {
            Json::Arr(a) => forall|e: int|
                0 <= e < a@.len() ==> (#[trigger] spec_decode_comet(a@[e])) is Some,
            _ => true,
        }
}

/// Law: one date key's decode keeps at most one record per element, and
/// exactly one when every element decodes.
pub proof fn lemma_day_count(elems: Seq<Json>)
    ensures
        spec_day_comets(elems).len() <= elems.len(),
        (forall|e: int| 0 <= e < elems.len() ==> (#[trigger] spec_decode_comet(elems[e])) is Some)
            ==> spec_day_comets(elems).len() == elems.len(),
    decreases elems.len(),
{
    if elems.len() > 0 {
        lemma_day_count(elems.drop_last());
        assert(forall|e: int|
            0 <= e < elems.drop_last().len() ==> elems.drop_last()[e] == elems[e]);
    }
}

/// Law: over all date keys, the flattened decode yields at most one record
/// per array element — and exactly one per element when every element is
/// individually valid, whatever the keys are.
pub proof fn lemma_feed_count(days: Seq<(String, Json)>)
    requires
        spec_flatten_days(days) is Some,
    ensures
        spec_flatten_days(days)->Some_0.len() <= spec_day_total(days),
        spec_all_elements_decode(days) ==> spec_flatten_days(days)->Some_0.len()
            == spec_day_total(days),
    decreases days.len(),
{
    if days.len() > 0 {
        lemma_feed_count(days.drop_last());
        assert(forall|d: int|
            0 <= d < days.drop_last().len() ==> days.drop_last()[d] == days[d]);
        match days.last().1 {
            Json::Arr(elems) => {
                lemma_day_count(elems@);
                if spec_all_elements_decode(days) {
                    assert(days[days.len() - 1].1 == days.last().1);
                }
            },
            _ => {},
        }
    }
}

/// Law: an element that does not decode — one missing a string `name`
/// member, say — is dropped from its day's result exactly as if it were
/// not there: not counted, and with no effect on its siblings.
pub proof fn lemma_bad_element_dropped(elems: Seq<Json>, i: int)
    requires
        0 <= i < elems.len(),
        spec_decode_comet(elems[i]) is None,
    ensures
        spec_day_comets(elems) == spec_day_comets(elems.remove(i)),
    decreases elems.len(),
{
    if i == elems.len() - 1 {
        assert(elems.remove(i) =~= elems.drop_last());
        assert(spec_day_comets(elems) =~= spec_day_comets(elems.drop_last()));
    } else {
        assert(elems.drop_last()[i] == elems[i]);
        lemma_bad_element_dropped(elems.drop_last(), i);
        assert(elems.remove(i).drop_last() =~= elems.drop_last().remove(i));
        assert(elems.remove(i).last() == elems.last());
    }
}

/// Law: an object without a string `name` member decodes to no record.
pub proof fn lemma_nameless_not_decoded(j: Json)
    requires
        match j {
            Json::Obj(fs) => !(obj_get(fs@, "name"@) matches Some(Json::Str(_))),
            _ => true,
        },
    ensures
        spec_decode_comet(j) is None,
{
}

/// The produced tree decodes back to the record exactly, and each optional
/// field is a member of the tree only where it is present in the record:
/// an absent field stays absent, never an empty placeholder.
pub fn comet_to_json(c: &Comet) -> (r: Json)
    ensures
        spec_decode_comet(r) == Some(*c),
        (r matches Json::Obj(fs) && obj_get(fs@, "close_approach_date"@) is Some)
            <==> c.close_approach_date is Some,
        (r matches Json::Obj(fs) && obj_get(fs@, "miss_distance"@) is Some)
            <==> c.miss_distance_km is Some,
{
    proof {
        reveal_strlit("name");
        reveal_strlit("close_approach_date");
        reveal_strlit("miss_distance");
        reveal_strlit("kilometers");
    }
    let mut fs: Vec<(String, Json)> = Vec::new();
    fs.push((String::from_str("name"), Json::Str(c.name.clone())));
    match &c.close_approach_date {
        Some(d) => fs.push(
            (String::from_str("close_approach_date"), Json::Str(d.clone())),
        ),
        None => {},
    }
    match &c.miss_distance_km {
        Some(m) => {
            let mut mfs: Vec<(String, Json)> = Vec::new();
            mfs.push((String::from_str("kilometers"), Json::Str(m.clone())));
            fs.push((String::from_str("miss_distance"), Json::Obj(mfs)));
        },
        None => {},
    }
    proof {
        reveal_strlit("name");
        reveal_strlit("close_approach_date");
        reveal_strlit("miss_distance");
        reveal_strlit("kilometers");
        assert("name"@.len() == 4);
        assert("close_approach_date"@.len() == 19);
        assert("miss_distance"@.len() == 13);
        assert("name"@ != "close_approach_date"@);
        assert("name"@ != "miss_distance"@);
        assert(fs@[0].0@ == "name"@);
        assert(obj_get(fs@, "name"@) == Some(fs@[0].1));
        if c.close_approach_date is Some {
            assert(obj_get(fs@, "close_approach_date"@) == obj_get(
                fs@.skip(1),
                "close_approach_date"@,
            ));
            assert(fs@.skip(1)[0] == fs@[1]);
        } else {
            assert(obj_get(fs@, "close_approach_date"@) == obj_get(
                fs@.skip(1),
                "close_approach_date"@,
            ));
            if c.miss_distance_km is Some {
                assert(fs@.skip(1)[0] == fs@[1]);
                assert(obj_get(fs@.skip(1), "close_approach_date"@) == obj_get(
                    fs@.skip(1).skip(1),
                    "close_approach_date"@,
                ));
                assert(fs@.skip(1).skip(1).len() == 0);
            } else {
                assert(fs@.skip(1).len() == 0);
            }
        }
        if c.miss_distance_km is Some {
            let mi: int = if c.close_approach_date is Some { 2 } else { 1 };
            assert(obj_get(fs@, "miss_distance"@) == obj_get(fs@.skip(1), "miss_distance"@));
            assert(fs@.skip(1)[0] == fs@[1]);
            if c.close_approach_date is Some {
                assert(obj_get(fs@.skip(1), "miss_distance"@) == obj_get(
                    fs@.skip(1).skip(1),
                    "miss_distance"@,
                ));
                assert(fs@.skip(1).skip(1)[0] == fs@[2]);
            }
            assert(fs@[mi].1 matches Json::Obj(mfs2)
                && obj_get(mfs2@, "kilometers"@) == Some(mfs2@[0].1));
        } else {
            if c.close_approach_date is Some {
                assert(obj_get(fs@, "miss_distance"@) == obj_get(fs@.skip(1), "miss_distance"@));
                assert(fs@.skip(1)[0] == fs@[1]);
                assert(obj_get(fs@.skip(1), "miss_distance"@) == obj_get(
                    fs@.skip(1).skip(1),
                    "miss_distance"@,
                ));
                assert(fs@.skip(1).skip(1).len() == 0);
            } else {
                assert(obj_get(fs@, "miss_distance"@) == obj_get(fs@.skip(1), "miss_distance"@));
                assert(fs@.skip(1).len() == 0);
            }
        }
    }
    Json::Obj(fs)
}

/// One catalogue element: `name`, a numeric `distance` and a
/// `constellation` are all required; a missing or ill-typed member fails
/// the element, and with it the whole catalogue.
pub open spec fn spec_decode_star(j: Json) -> Option<Star> {
    match j {
        Json::Obj(fs) => match (
            obj_get(fs@, "name"@),
            obj_get(fs@, "distance"@),
            obj_get(fs@, "constellation"@),
        ) {
            (Some(n), Some(d), Some(c)) => match (n, d, c) {
                (Json::Str(name), Json::Num(distance_ly), Json::Str(constellation)) => Some(
                    Star { name, distance_ly, constellation },
                ),
                _ => None,
            },
            _ => None,
        },
        _ => None,
    }
}

/// The records of the whole catalogue, or `None` where some element fails.
pub open spec fn spec_star_list(elems: Seq<Json>) -> Option<Seq<Star>>
    decreases elems.len(),
{
    if elems.len() == 0 {
        Some(Seq::empty())
    } else {
        match (spec_star_list(elems.drop_last()), spec_decode_star(elems.last())) {
            (Some(front), Some(s)) => Some(front.push(s)),
            _ => None,
        }
    }
}

/// The whole star catalogue: a JSON array of well-shaped objects, decoded
/// atomically, with no per-element tolerance.
pub open spec fn spec_stars(j: Json) -> Result<Seq<Star>, DecodeError> {
    match j {
        Json::Arr(elems) => match spec_star_list(elems@) {
            Some(ss) => Ok(ss),
            None => Err(DecodeError::StarShape),
        },
        _ => Err(DecodeError::StarShape),
    }
}

/// One catalogue element as a record, exactly [`spec_decode_star`].
pub fn decode_star(j: &Json) -> (r: Option<Star>)
    ensures
        r == spec_decode_star(*j),
{
    match j {
        Json::Obj(fs) => {
            let name = match obj_get_ref(fs, "name") {
                Some(Json::Str(n)) => n.clone(),
                Some(_) => {
                    return None;
                },
                None => {
                    return None;
                },
            };
            let distance_ly = match obj_get_ref(fs, "distance") {
                Some(Json::Num(d)) => d.clone(),
                Some(_) => {
                    return None;
                },
                None => {
                    return None;
                },
            };
            let constellation = match obj_get_ref(fs, "constellation") {
                Some(Json::Str(c)) => c.clone(),
                Some(_) => {
                    return None;
                },
                None => {
                    return None;
                },
            };
            Some(Star { name, distance_ly, constellation })
        },
        _ => None,
    }
}

proof fn lemma_star_list_bad(elems: Seq<Json>, i: int)
    requires
        0 <= i < elems.len(),
        spec_decode_star(elems[i]) is None,
    ensures
        spec_star_list(elems) is None,
    decreases elems.len(),
{
    if i == elems.len() - 1 {
    } else {
        assert(elems.drop_last()[i] == elems[i]);
        lemma_star_list_bad(elems.drop_last(), i);
    }
}

/// The whole catalogue as records, exactly [`spec_stars`].
pub fn decode_stars(j: &Json) -> (r: Result<Vec<Star>, DecodeError>)
    ensures
        match spec_stars(*j) {
            Ok(ss) => r matches Ok(v) && v@ == ss,
            Err(e) => r matches Err(e2) && e2 == e,
        },
{
    let elems = match j {
        Json::Arr(elems) => elems,
        _ => {
            return Err(DecodeError::StarShape);
        },
    };
    let mut out: Vec<Star> = Vec::new();
    let mut k: usize = 0;
    proof {
        assert(elems@.take(0) =~= Seq::<Json>::empty());
    }
    while k < elems.len()
        invariant
            k <= elems@.len(),
            *j == Json::Arr(*elems),
            spec_star_list(elems@.take(k as int)) == Some(out@),
        decreases elems@.len() - k,
    {
        proof {
            assert(elems@.take(k as int + 1).drop_last() =~= elems@.take(k as int));
            assert(elems@.take(k as int + 1).last() == elems@[k as int]);
        }
        match decode_star(&elems[k]) {
            Some(s) => {
                out.push(s);
            },
            None => {
                proof {
                    lemma_star_list_bad(elems@, k as int);
                }
                return Err(DecodeError::StarShape);
            },
        }
        k += 1;
    }
    proof {
        assert(elems@.take(elems@.len() as int) =~= elems@);
    }
    Ok(out)
}

/// Comet-feed text as records: parse, then decode as [`spec_comet_feed`].
pub fn comets_from_text(s: &str) -> (r: Result<Vec<Comet>, DecodeError>)
    ensures
        match spec_parse_json(s@) {
            None => r matches Err(e) && e == DecodeError::Syntax,
            Some(j) => match spec_comet_feed(j) {
                Ok(cs) => r matches Ok(v) && v@ == cs,
                Err(e) => r matches Err(e2) && e2 == e,
            },
        },
{
    match parse_json(s) {
        Some(j) => decode_comet_feed(&j),
        None => Err(DecodeError::Syntax),
    }
}

/// Launch-list text as records: parse, then decode as [`spec_programs`].
pub fn programs_from_text(s: &str) -> (r: Result<Vec<SpaceProgram>, DecodeError>)
    ensures
        match spec_parse_json(s@) {
            None => r matches Err(e) && e == DecodeError::Syntax,
            Some(j) => match spec_programs(j) {
                Ok(ps) => r matches Ok(v) && v@ == ps,
                Err(e) => r matches Err(e2) && e2 == e,
            },
        },
{
    match parse_json(s) {
        Some(j) => decode_programs(&j),
        None => Err(DecodeError::Syntax),
    }
}

/// Star-catalogue text as records: parse, then decode as [`spec_stars`].
pub fn stars_from_text(s: &str) -> (r: Result<Vec<Star>, DecodeError>)
    ensures
        match spec_parse_json(s@) {
            None => r matches Err(e) && e == DecodeError::Syntax,
            Some(j) => match spec_stars(j) {
                Ok(ss) => r matches Ok(v) && v@ == ss,
                Err(e) => r matches Err(e2) && e2 == e,
            },
        },
{
    match parse_json(s) {
        Some(j) => decode_stars(&j),
        None => Err(DecodeError::Syntax),
    }
}

} // verus!
