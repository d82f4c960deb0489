use astro_feed::decode::{Comet, SpaceProgram};
use astro_feed::select::{
    is_yes, parse_limit, parse_sort_mode, select_comets, select_programs, sort_comets,
    sort_programs, take_limit,
};

fn comet(name: &str, date: Option<&str>, miss: Option<&str>) -> Comet {
    Comet {
        name: name.to_string(),
        close_approach_date: date.map(|d| d.to_string()),
        miss_distance_km: miss.map(|m| m.to_string()),
    }
}

fn program(name: &str) -> SpaceProgram {
    SpaceProgram { name: name.to_string(), description: None, agency: None }
}

#[test]
fn mode_one_orders_by_numeric_miss_distance_with_missing_as_zero() {
    let data = vec![
        comet("hundred", None, Some("100")),
        comet("fifty", None, Some("50")),
        comet("missing", None, None),
    ];
    let mut v = data;
    sort_comets(&mut v, 1);
    let names: Vec<&str> = v.iter().map(|c| c.name.as_str()).collect();
    assert_eq!(names, vec!["missing", "fifty", "hundred"]);
}

#[test]
fn unparsable_distance_sorts_as_zero() {
    let data = vec![
        comet("n_a", None, Some("N/A")),
        comet("small", None, Some("0.5")),
    ];
    let mut v = data;
    sort_comets(&mut v, 1);
    assert_eq!(v[0].name, "n_a");
    assert_eq!(v[1].name, "small");
}

#[test]
fn numeric_order_is_by_value_not_by_text() {
    let data = vec![
        comet("nine", None, Some("9")),
        comet("ten", None, Some("10")),
        comet("nine_and_a_half", None, Some("9.50")),
        comet("nine_point_five", None, Some("9.5")),
    ];
    let mut v = data;
    sort_comets(&mut v, 1);
    let names: Vec<&str> = v.iter().map(|c| c.name.as_str()).collect();
    assert_eq!(names[0], "nine");
    assert_eq!(names[3], "ten");
    // "9.5" and "9.50" are the same value; both stand between.
    assert!(names[1..3].contains(&"nine_and_a_half"));
    assert!(names[1..3].contains(&"nine_point_five"));
}

#[test]
fn mode_two_orders_by_date_text_with_missing_first() {
    let data = vec![
        comet("late", Some("2024-06-13"), None),
        comet("early", Some("2024-06-06"), None),
        comet("undated", None, None),
    ];
    let mut v = data;
    sort_comets(&mut v, 2);
    let names: Vec<&str> = v.iter().map(|c| c.name.as_str()).collect();
    assert_eq!(names, vec!["undated", "early", "late"]);
}

#[test]
fn any_mode_other_than_one_orders_by_date() {
    let data = vec![
        comet("b", Some("2024-06-08"), Some("1")),
        comet("a", Some("2024-06-07"), Some("2")),
    ];
    let mut v = data;
    sort_comets(&mut v, 7);
    assert_eq!(v[0].name, "a");
    assert_eq!(v[1].name, "b");
}

#[test]
fn a_no_answer_yields_no_comets() {
    let data = vec![comet("x", None, Some("1")), comet("y", None, Some("2"))];
    let selected = select_comets("no", "10", "1", data);
    assert!(selected.is_empty());
}

#[test]
fn limit_three_of_ten_prints_the_first_three_in_sorted_order() {
    let mut data = Vec::new();
    for i in 0..10u32 {
        let miss = format!("{}", 100 - i);
        let name = format!("c{}", i);
        data.push(comet(&name, None, Some(&miss)));
    }
    let selected = select_comets("yes", "3", "1", data);
    assert_eq!(selected.len(), 3);
    let names: Vec<&str> = selected.iter().map(|c| c.name.as_str()).collect();
    assert_eq!(names, vec!["c9", "c8", "c7"]);
}

#[test]
fn case_insensitive_yes_is_affirmative() {
    assert!(is_yes("yes"));
    assert!(is_yes("YES"));
    assert!(is_yes("Yes"));
    assert!(is_yes("yEs"));
    assert!(!is_yes("no"));
    assert!(!is_yes("yess"));
    assert!(!is_yes(""));
    assert!(!is_yes("y"));
}

#[test]
fn unparsable_count_defaults_to_ten() {
    assert_eq!(parse_limit("abc"), 10);
    assert_eq!(parse_limit(""), 10);
    assert_eq!(parse_limit("-3"), 10);
    assert_eq!(parse_limit("3.5"), 10);
    assert_eq!(parse_limit("99999999999999999999999999999999"), 10);
    assert_eq!(parse_limit("7"), 7);
    assert_eq!(parse_limit("+5"), 5);
    assert_eq!(parse_limit("0"), 0);
}

#[test]
fn unparsable_sort_mode_defaults_to_one() {
    assert_eq!(parse_sort_mode("2"), 2);
    assert_eq!(parse_sort_mode("1"), 1);
    assert_eq!(parse_sort_mode("x"), 1);
    assert_eq!(parse_sort_mode(""), 1);
    assert_eq!(parse_sort_mode("256"), 1);
}

#[test]
fn limit_zero_and_limit_beyond_length_are_valid() {
    let data = vec![comet("x", None, Some("1")), comet("y", None, Some("2"))];
    let none = select_comets("yes", "0", "1", data.clone());
    assert!(none.is_empty());
    let all = select_comets("yes", "100", "1", data);
    assert_eq!(all.len(), 2);
}

#[test]
fn take_limit_keeps_order() {
    let v = vec![1u32, 2, 3, 4];
    assert_eq!(take_limit(v.clone(), 2), vec![1, 2]);
    assert_eq!(take_limit(v.clone(), 9), vec![1, 2, 3, 4]);
    assert_eq!(take_limit(v, 0), Vec::<u32>::new());
}

#[test]
fn programs_sort_by_name_whatever_the_mode_answer() {
    let data = vec![program("Voskhod"), program("Apollo"), program("Mercury")];
    let selected = select_programs("yes", "10", data);
    let names: Vec<&str> = selected.iter().map(|p| p.name.as_str()).collect();
    assert_eq!(names, vec!["Apollo", "Mercury", "Voskhod"]);
}

#[test]
fn a_no_answer_yields_no_programs() {
    let data = vec![program("Apollo")];
    let selected = select_programs("anything", "10", data);
    assert!(selected.is_empty());
}

#[test]
fn program_sort_is_a_permutation() {
    let data = vec![program("b"), program("a"), program("b")];
    let mut v = data;
    sort_programs(&mut v);
    let names: Vec<&str> = v.iter().map(|p| p.name.as_str()).collect();
    assert_eq!(names, vec!["a", "b", "b"]);
}
