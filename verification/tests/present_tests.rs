use astro_feed::decode::{Comet, SpaceProgram};
use astro_feed::present::{format_comet, format_program};

#[test]
fn comet_line_shows_all_fields_verbatim() {
    let c = Comet {
        name: "Halley".to_string(),
        close_approach_date: Some("2024-06-06".to_string()),
        miss_distance_km: Some("54321.5".to_string()),
    };
    assert_eq!(
        format_comet(&c),
        "Name: Halley, Close Approach Date: 2024-06-06, Miss Distance (km): 54321.5"
    );
}

#[test]
fn absent_comet_fields_render_as_the_na_marker() {
    let c = Comet {
        name: "Encke".to_string(),
        close_approach_date: None,
        miss_distance_km: None,
    };
    assert_eq!(
        format_comet(&c),
        "Name: Encke, Close Approach Date: N/A, Miss Distance (km): N/A"
    );
}

#[test]
fn program_line_shows_all_fields_verbatim() {
    let p = SpaceProgram {
        name: "Apollo".to_string(),
        description: Some("Crewed lunar flight".to_string()),
        agency: Some("NASA".to_string()),
    };
    assert_eq!(
        format_program(&p),
        "Name: Apollo, Description: Crewed lunar flight, Agency: NASA"
    );
}

#[test]
fn absent_program_fields_render_as_the_na_marker() {
    let p = SpaceProgram { name: "Falcon 1".to_string(), description: None, agency: None };
    assert_eq!(format_program(&p), "Name: Falcon 1, Description: N/A, Agency: N/A");
}
