use astro_feed::decode::{
    comets_from_text, decode_comet, decode_comet_feed, decode_programs, programs_from_text,
    comet_to_json, Comet, DecodeError, SpaceProgram,
};
use astro_feed::json::{parse_json, Json};

fn obj(fields: Vec<(&str, Json)>) -> Json {
    Json::Obj(fields.into_iter().map(|(k, v)| (k.to_string(), v)).collect())
}

fn s(text: &str) -> Json {
    Json::Str(text.to_string())
}

#[test]
fn feed_flattens_all_date_keys_and_drops_invalid_elements() {
    let text = r#"{
        "near_earth_objects": {
            "2024-06-06": [
                {"name": "A", "close_approach_date": "2024-06-06",
                 "miss_distance": {"kilometers": "100.5"}},
                {"close_approach_date": "2024-06-06"}
            ],
            "2024-06-07": [
                {"name": "B", "miss_distance": "42"}
            ]
        }
    }"#;
    let comets = comets_from_text(text).unwrap();
    assert_eq!(comets.len(), 2);
    let names: Vec<&str> = comets.iter().map(|c| c.name.as_str()).collect();
    assert!(names.contains(&"A"));
    assert!(names.contains(&"B"));
}

#[test]
fn nameless_element_is_dropped_without_aborting_siblings() {
    let day = Json::Arr(vec![
        obj(vec![("close_approach_date", s("2024-06-06"))]),
        obj(vec![("name", s("Kept"))]),
    ]);
    let feed = obj(vec![("near_earth_objects", obj(vec![("2024-06-06", day)]))]);
    let comets = decode_comet_feed(&feed).unwrap();
    assert_eq!(comets.len(), 1);
    assert_eq!(comets[0].name, "Kept");
}

#[test]
fn miss_distance_accepts_bare_string_and_nested_object() {
    let bare = obj(vec![("name", s("X")), ("miss_distance", s("7.25"))]);
    let nested = obj(vec![
        ("name", s("Y")),
        ("miss_distance", obj(vec![("kilometers", s("7.25"))])),
    ]);
    let cx = decode_comet(&bare).unwrap();
    let cy = decode_comet(&nested).unwrap();
    assert_eq!(cx.miss_distance_km.as_deref(), Some("7.25"));
    assert_eq!(cy.miss_distance_km.as_deref(), Some("7.25"));
}

#[test]
fn absent_optional_fields_decode_as_absent_not_empty() {
    let bare = obj(vec![("name", s("X"))]);
    let c = decode_comet(&bare).unwrap();
    assert_eq!(c.close_approach_date, None);
    assert_eq!(c.miss_distance_km, None);
    assert_ne!(c.close_approach_date, Some(String::new()));
}

#[test]
fn comet_round_trip_preserves_absent_as_absent() {
    let c = Comet {
        name: "Halley".to_string(),
        close_approach_date: None,
        miss_distance_km: None,
    };
    let tree = comet_to_json(&c);
    assert_eq!(decode_comet(&tree), Some(c));
    match &tree {
        Json::Obj(fields) => {
            assert!(fields.iter().all(|(k, _)| k != "close_approach_date"));
            assert!(fields.iter().all(|(k, _)| k != "miss_distance"));
        },
        _ => panic!("expected an object"),
    }
}

#[test]
fn comet_round_trip_preserves_present_fields() {
    let c = Comet {
        name: "Encke".to_string(),
        close_approach_date: Some("2024-06-07".to_string()),
        miss_distance_km: Some("123.450".to_string()),
    };
    let tree = comet_to_json(&c);
    assert_eq!(decode_comet(&tree), Some(c));
}

#[test]
fn feed_with_non_array_day_is_fatal() {
    let feed = obj(vec![(
        "near_earth_objects",
        obj(vec![("2024-06-06", s("oops"))]),
    )]);
    assert_eq!(decode_comet_feed(&feed), Err(DecodeError::FeedShape));
}

#[test]
fn feed_without_near_earth_objects_is_fatal() {
    let feed = obj(vec![("something_else", s("x"))]);
    assert_eq!(decode_comet_feed(&feed), Err(DecodeError::FeedShape));
}

#[test]
fn text_that_is_not_json_is_a_syntax_error() {
    assert_eq!(comets_from_text("not json at all {"), Err(DecodeError::Syntax));
    assert_eq!(programs_from_text(""), Err(DecodeError::Syntax));
}

#[test]
fn parse_json_reads_the_text_not_the_bytes_back() {
    // A wrapper that handed its input through unchanged could not produce
    // records out of this text.
    let text = r#"[{"name": "Falcon 1", "description": null}]"#;
    let programs = programs_from_text(text).unwrap();
    assert_eq!(programs.len(), 1);
    assert_eq!(programs[0].name, "Falcon 1");
    assert_eq!(programs[0].description, None);
    assert_eq!(programs[0].agency, None);
}

#[test]
fn program_list_on_an_object_fails_never_yields_empty() {
    let not_a_list = obj(vec![("name", s("X"))]);
    assert_eq!(decode_programs(&not_a_list), Err(DecodeError::ListShape));
}

#[test]
fn program_list_is_atomic_one_bad_element_fails_all() {
    let list = Json::Arr(vec![
        obj(vec![("name", s("Good"))]),
        obj(vec![("description", s("no name here"))]),
    ]);
    assert_eq!(decode_programs(&list), Err(DecodeError::ListShape));
}

#[test]
fn program_optional_fields_take_null_as_absent_but_reject_wrong_types() {
    let ok = Json::Arr(vec![obj(vec![
        ("name", s("Apollo")),
        ("description", Json::Null),
        ("agency", s("NASA")),
    ])]);
    let programs = decode_programs(&ok).unwrap();
    assert_eq!(
        programs,
        vec![SpaceProgram {
            name: "Apollo".to_string(),
            description: None,
            agency: Some("NASA".to_string()),
        }]
    );
    let bad = Json::Arr(vec![obj(vec![
        ("name", s("Apollo")),
        ("description", Json::Bool(true)),
    ])]);
    assert_eq!(decode_programs(&bad), Err(DecodeError::ListShape));
}

#[test]
fn program_order_is_preserved_by_decode() {
    let list = Json::Arr(vec![
        obj(vec![("name", s("Zeta"))]),
        obj(vec![("name", s("Alpha"))]),
    ]);
    let programs = decode_programs(&list).unwrap();
    assert_eq!(programs[0].name, "Zeta");
    assert_eq!(programs[1].name, "Alpha");
}

#[test]
fn number_members_are_carried_as_decimal_text() {
    let tree = parse_json(r#"{"a": 12.5}"#).unwrap();
    match tree {
        Json::Obj(fields) => {
            assert_eq!(fields.len(), 1);
            assert_eq!(fields[0].0, "a");
            assert_eq!(fields[0].1, Json::Num("12.5".to_string()));
        },
        _ => panic!("expected an object"),
    }
}
