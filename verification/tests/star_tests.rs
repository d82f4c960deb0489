use astro_feed::decode::{decode_stars, stars_from_text, DecodeError, Star};
use astro_feed::json::Json;
use astro_feed::present::format_star;

fn obj(fields: Vec<(&str, Json)>) -> Json {
    Json::Obj(fields.into_iter().map(|(k, v)| (k.to_string(), v)).collect())
}

fn s(text: &str) -> Json {
    Json::Str(text.to_string())
}

#[test]
fn star_catalogue_decodes_whole_arrays() {
    let text = r#"[
        {"name": "Sirius", "distance": 8.6, "constellation": "Canis Major"},
        {"name": "Vega", "distance": 25, "constellation": "Lyra"}
    ]"#;
    let stars = stars_from_text(text).unwrap();
    assert_eq!(stars.len(), 2);
    assert_eq!(stars[0].name, "Sirius");
    assert_eq!(stars[0].distance_ly, "8.6");
    assert_eq!(stars[1].distance_ly, "25");
    assert_eq!(stars[1].constellation, "Lyra");
}

#[test]
fn star_decode_has_no_per_element_tolerance() {
    let list = Json::Arr(vec![
        obj(vec![
            ("name", s("Sirius")),
            ("distance", Json::Num("8.6".to_string())),
            ("constellation", s("Canis Major")),
        ]),
        obj(vec![("name", s("Nameless distance"))]),
    ]);
    assert_eq!(decode_stars(&list), Err(DecodeError::StarShape));
}

#[test]
fn star_catalogue_rejects_wrongly_typed_fields() {
    let list = Json::Arr(vec![obj(vec![
        ("name", s("Sirius")),
        ("distance", s("8.6")),
        ("constellation", s("Canis Major")),
    ])]);
    assert_eq!(decode_stars(&list), Err(DecodeError::StarShape));
}

#[test]
fn star_catalogue_on_an_object_is_fatal() {
    let not_a_list = obj(vec![("name", s("Sirius"))]);
    assert_eq!(decode_stars(&not_a_list), Err(DecodeError::StarShape));
    assert_eq!(stars_from_text("{}"), Err(DecodeError::StarShape));
}

#[test]
fn star_line_shows_all_fields_verbatim() {
    let star = Star {
        name: "Sirius".to_string(),
        distance_ly: "8.6".to_string(),
        constellation: "Canis Major".to_string(),
    };
    assert_eq!(
        format_star(&star),
        "Name: Sirius, Distance (ly): 8.6, Constellation: Canis Major"
    );
}
