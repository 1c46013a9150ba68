use flydent::dataset::{
    parse_csv_line, parse_priority, parse_python_list, replace_text, strict_regex_of, text_lines,
};
use flydent::{EntityRecord, EntityResult, Parser};

#[test]
fn test_parser_creation() {
    let parser = Parser::new();
    assert!(parser.min_callsign_len() > 0);
    assert!(parser.max_callsign_len() >= parser.min_callsign_len());
    assert!(parser.record_count() > 0);
    assert!(parser.parse_simple("T6ABC").is_some());
}

#[test]
fn test_parse_csv_line() {
    let line = r#"Afghanistan,general,0,"['AF', 'AFG']","['T6', 'YA']",['AAA-ZZZ'],"^(T6|YA)(-{0,1}([A-Z]{3}|[A-Z0-9]{1,4})){0,1}$",700000,700FFF,['700']"#;
    let fields = parse_csv_line(line);
    assert_eq!(fields[0], "Afghanistan");
    assert_eq!(fields[3], "['AF', 'AFG']");
    assert_eq!(fields[4], "['T6', 'YA']");
}

#[test]
fn test_parse_python_list() {
    let result = parse_python_list("['T6', 'YA']");
    assert_eq!(result, vec!["T6", "YA"]);

    let result = parse_python_list("['700']");
    assert_eq!(result, vec!["700"]);
}

#[test]
fn test_parse_simple() {
    let parser = Parser::new();
    if let Some(result) = parser.parse_simple("T6ABC") {
        match result {
            EntityResult::Country { nation, .. } => {
                assert_eq!(nation, "Afghanistan");
            }
            _ => panic!("Expected country result for T6ABC"),
        }
    } else {
        panic!("T6ABC should match Afghanistan");
    }
}

#[test]
fn test_comprehensive_parsing() {
    let parser = Parser::new();

    if let Some(result) = parser.parse("T6ABC", false, false) {
        match result {
            EntityResult::Country { nation, description, iso2, iso3 } => {
                assert_eq!(nation, "Afghanistan");
                assert_eq!(description, "general");
                assert_eq!(iso2, "AF");
                assert_eq!(iso3, "AFG");
            }
            _ => panic!("Expected country result for T6ABC"),
        }
    } else {
        panic!("T6ABC should match Afghanistan");
    }

    if let Some(result) = parser.parse("4Y123", false, false) {
        match result {
            EntityResult::Organization { name, description } => {
                assert_eq!(name, "International Civil Aviation Organization");
                assert_eq!(description, "general");
            }
            _ => panic!("Expected organization result for 4Y123"),
        }
    } else {
        panic!("4Y123 should match ICAO");
    }

    if let Some(result) = parser.parse("700123", false, true) {
        match result {
            EntityResult::Country { nation, description, iso2, iso3 } => {
                assert_eq!(nation, "Afghanistan");
                assert_eq!(description, "general");
                assert_eq!(iso2, "AF");
                assert_eq!(iso3, "AFG");
            }
            _ => panic!("Expected country result for ICAO 700123"),
        }
    } else {
        panic!("ICAO 700123 should match Afghanistan");
    }

    assert!(parser.parse("N123ABC", false, false).is_none());
}

fn organization(name: &str, priority: i32, callsigns: &[&str], regex: &str, icao: &[&str]) -> EntityRecord {
    EntityRecord {
        entity_result: EntityResult::Organization {
            name: name.to_string(),
            description: "general".to_string(),
        },
        priority,
        callsigns: callsigns.iter().map(|s| s.to_string()).collect(),
        regex: regex.to_string(),
        strict_regex: strict_regex_of(regex),
        icao24bit_prefixes: icao.iter().map(|s| s.to_string()).collect(),
    }
}

fn name_of(r: Option<EntityResult>) -> Option<String> {
    match r {
        Some(EntityResult::Organization { name, .. }) => Some(name),
        Some(EntityResult::Country { nation, .. }) => Some(nation),
        None => None,
    }
}

#[test]
fn shortest_icao_prefix_wins() {
    let parser = Parser::from_records(vec![
        organization("Long", 0, &["XX"], "^XX$", &["700"]),
        organization("Short", 0, &["YY"], "^YY$", &["7"]),
    ]);
    assert_eq!(name_of(parser.parse("700123", false, true)), Some("Short".to_string()));
    assert_eq!(name_of(parser.parse("701234", true, true)), Some("Short".to_string()));
    assert_eq!(name_of(parser.parse("800000", false, true)), None);
}

#[test]
fn later_record_owns_a_shared_icao_prefix() {
    let parser = Parser::from_records(vec![
        organization("First", 0, &[], "^$", &["70"]),
        organization("Second", 0, &[], "^$", &["70"]),
    ]);
    assert_eq!(name_of(parser.parse("701000", false, true)), Some("Second".to_string()));
}

#[test]
fn strict_icao_mode_wants_six_uppercase_hex_digits() {
    let parser = Parser::new();
    assert!(parser.parse("700123", true, true).is_some());
    assert!(parser.parse("70012", true, true).is_none());
    assert!(parser.parse("7001234", true, true).is_none());
    assert!(parser.parse("70012g", true, true).is_none());
    assert!(parser.parse("70012", false, true).is_some());
}

#[test]
fn higher_priority_wins_in_any_order() {
    let low_first = Parser::from_records(vec![
        organization("Low", 1, &["AB"], "^AB[0-9]+$", &[]),
        organization("High", 5, &["A"], "^A[A-Z0-9]+$", &[]),
    ]);
    assert_eq!(name_of(low_first.parse_simple("AB12")), Some("High".to_string()));
    let high_first = Parser::from_records(vec![
        organization("High", 5, &["A"], "^A[A-Z0-9]+$", &[]),
        organization("Low", 1, &["AB"], "^AB[0-9]+$", &[]),
    ]);
    assert_eq!(name_of(high_first.parse_simple("AB12")), Some("High".to_string()));
}

#[test]
fn equal_priority_goes_to_the_first_candidate() {
    let parser = Parser::from_records(vec![
        organization("Longer", 0, &["AB"], "^AB[0-9]+$", &[]),
        organization("Shorter", 0, &["A"], "^A[A-Z0-9]+$", &[]),
    ]);
    // Candidates come by prefix length first: "A" before "AB".
    assert_eq!(name_of(parser.parse_simple("AB12")), Some("Shorter".to_string()));
}

#[test]
fn a_pattern_that_does_not_match_or_compile_is_passed_over() {
    let parser = Parser::from_records(vec![
        organization("Broken", 9, &["A"], "^A(", &[]),
        organization("Other", 9, &["A"], "^AZ$", &[]),
        organization("Good", 0, &["A"], "^A[0-9]+$", &[]),
    ]);
    assert_eq!(name_of(parser.parse_simple("A12")), Some("Good".to_string()));
    assert_eq!(name_of(parser.parse_simple("B12")), None);
}

#[test]
fn strict_mode_wants_the_separator() {
    let parser = Parser::new();
    assert!(parser.parse("T6-ABC", true, false).is_some());
    assert!(parser.parse("T6ABC", true, false).is_none());
    assert!(parser.parse("T6ABC", false, false).is_some());
    assert!(parser.parse("T6-ABCDEFG", false, false).is_none());
}

#[test]
fn strict_pattern_is_derived_from_the_loose_one() {
    assert_eq!(
        strict_regex_of("^(T6|YA)(-{0,1}([A-Z]{3}|[A-Z0-9]{1,4})){0,1}$"),
        "^(T6|YA)(\\-([A-Z]{3}|[A-Z0-9]{1,4}))$"
    );
    assert_eq!(replace_text("a-b-c", "-", "+"), "a+b+c");
    assert_eq!(replace_text("aaa", "aa", "b"), "ba");
    assert_eq!(replace_text("abc", "", "x"), "abc");
}

#[test]
fn csv_quotes_and_trimming() {
    assert_eq!(parse_csv_line(" a , \"b, c\" ,\"say \"\"hi\"\"\""), vec!["a", "b, c", "say \"hi\""]);
    assert_eq!(parse_csv_line(""), vec![""]);
    assert_eq!(parse_csv_line("a,,b"), vec!["a", "", "b"]);
}

#[test]
fn list_fields() {
    assert_eq!(parse_python_list("[]"), Vec::<String>::new());
    assert_eq!(parse_python_list("T6"), Vec::<String>::new());
    assert_eq!(parse_python_list("['a','b']"), vec!["a','b"]);
    assert_eq!(parse_python_list("[\"x\",  'y' , z]"), vec!["x", "y", "z"]);
    assert_eq!(parse_python_list("[\"x\", 'y', z]"), vec!["x", "y", "z"]);
}

#[test]
fn priorities() {
    assert_eq!(parse_priority("5"), 5);
    assert_eq!(parse_priority("-3"), -3);
    assert_eq!(parse_priority("+7"), 7);
    assert_eq!(parse_priority("2147483647"), 2147483647);
    assert_eq!(parse_priority("-2147483648"), -2147483648);
    assert_eq!(parse_priority("2147483648"), 0);
    assert_eq!(parse_priority("99999999999999"), 0);
    assert_eq!(parse_priority("1a"), 0);
    assert_eq!(parse_priority("-"), 0);
    assert_eq!(parse_priority(""), 0);
}

#[test]
fn lines_of_a_text() {
    assert_eq!(text_lines("a\nb"), vec!["a", "b"]);
    assert_eq!(text_lines("a\r\nb\n"), vec!["a", "b"]);
    assert_eq!(text_lines("a\n\nb\r"), vec!["a", "", "b\r"]);
    assert_eq!(text_lines(""), Vec::<String>::new());
}

#[test]
fn tables_skip_header_blank_and_short_lines() {
    let countries = "header\n\nX,d,3,\"['XA', 'XAA']\",\"['X1']\",s,^X1.*$,0,0,['A1']\nshort,line\n";
    let orgs = "header\nO,d,1,['O9'],s,^O9$,0,0,['B2']";
    let parser = Parser::from_csv(countries, orgs);
    assert_eq!(parser.record_count(), 2);
    assert_eq!(parser.min_callsign_len(), 2);
    assert_eq!(parser.max_callsign_len(), 2);
    assert_eq!(
        parser.parse_simple("X1Q"),
        Some(EntityResult::Country {
            nation: "X".to_string(),
            description: "d".to_string(),
            iso2: "XA".to_string(),
            iso3: "XAA".to_string(),
        })
    );
    assert_eq!(name_of(parser.parse("B2FFFF", true, true)), Some("O".to_string()));
}
