use field_lines::boundary::Boundary;
use field_lines::plane::Point;
use field_lines::team::Team;
use field_lines::text::{parse_fixed, split_fields, trim_hashes};

#[test]
fn split_keeps_empty_fields() {
    assert_eq!(split_fields("a,,b", ','), vec!["a", "", "b"]);
    assert_eq!(split_fields("", ','), vec![""]);
    assert_eq!(split_fields("x,", ','), vec!["x", ""]);
}

#[test]
fn trim_hashes_drops_leading_only() {
    assert_eq!(trim_hashes("##ab#"), "ab#");
    assert_eq!(trim_hashes("ab"), "ab");
}

#[test]
fn parse_fixed_reads_millionths() {
    assert_eq!(parse_fixed("-122.4194"), Some(-122_419_400));
    assert_eq!(parse_fixed("+47.5"), Some(47_500_000));
    assert_eq!(parse_fixed("10"), Some(10_000_000));
    assert_eq!(parse_fixed(".5"), Some(500_000));
    assert_eq!(parse_fixed("5."), Some(5_000_000));
    assert_eq!(parse_fixed("1.23456789"), Some(1_234_567));
    assert_eq!(parse_fixed("-0.000001"), Some(-1));
}

#[test]
fn parse_fixed_rejects_other_text() {
    assert_eq!(parse_fixed(""), None);
    assert_eq!(parse_fixed("-"), None);
    assert_eq!(parse_fixed("."), None);
    assert_eq!(parse_fixed("1.2.3"), None);
    assert_eq!(parse_fixed("12a"), None);
    assert_eq!(parse_fixed(" 12"), None);
    assert_eq!(parse_fixed("2000"), None);
    assert_eq!(parse_fixed("-1073.741825"), None);
    assert_eq!(parse_fixed("1073.741824"), Some(1_073_741_824));
}

#[test]
fn team_from_row() {
    let t = Team::from_str("Lions,LIO,#1a2B3c").unwrap();
    assert_eq!(t.name, "Lions");
    assert_eq!(t.abbr, "LIO");
    assert_eq!(t.color, [0x1a, 0x2b, 0x3c]);
}

#[test]
fn team_colour_without_hash_and_extra_fields() {
    let t = Team::from_str("Owls,OWL,ffffff,extra").unwrap();
    assert_eq!(t.color, [255, 255, 255]);
}

#[test]
fn team_rejects_bad_rows() {
    assert!(Team::from_str("Lions,LIO").is_none());
    assert!(Team::from_str("Lions,LIO,#12345").is_none());
    assert!(Team::from_str("Lions,LIO,#12345g").is_none());
    assert!(Team::from_str("Lions,LIO,#1234567").is_none());
}

#[test]
fn boundary_load_skips_comments_and_bad_rows() {
    let rows: Vec<String> = vec![
        "# lon,lat".to_string(),
        "  -122.5,47.25  ".to_string(),
        "-122.4,47.3,0".to_string(),
        "nonsense".to_string(),
        "1.0".to_string(),
        "abc,2".to_string(),
        "".to_string(),
        "-122.5,47.25".to_string(),
    ];
    let b = Boundary::load(&rows);
    assert_eq!(
        b.ring,
        vec![
            Point { x: -122_500_000, y: 47_250_000 },
            Point { x: -122_400_000, y: 47_300_000 },
            Point { x: -122_500_000, y: 47_250_000 },
        ]
    );
}

#[test]
fn boundary_load_empty() {
    let b = Boundary::load(&Vec::new());
    assert!(b.ring.is_empty());
}

#[test]
fn row_vertex_reads_two_fields() {
    assert_eq!(Boundary::row_vertex("1.5,-2"), Some(Point { x: 1_500_000, y: -2_000_000 }));
    assert_eq!(Boundary::row_vertex("1.5"), None);
    assert_eq!(Boundary::row_vertex(" 1.5,2"), None);
}

#[test]
fn parse_row_trims_and_skips_comments() {
    assert_eq!(
        Boundary::parse_row("\t 3,4 \u{a0}\n"),
        Some(Point { x: 3_000_000, y: 4_000_000 })
    );
    assert_eq!(Boundary::parse_row("#3,4"), None);
    assert_eq!(Boundary::parse_row(" #3,4"), None);
}
