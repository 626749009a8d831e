use lyrebird::sheet::output_path;
use lyrebird::tmdb::{year_of, Auth, Movie, Series};

#[test]
fn detects_credential_kind() {
    assert!(matches!(
        Auth::detect("eyJhbGciOiJIUzI1NiJ9.payload.sig".to_string()),
        Auth::V4Token(_)
    ));
    assert!(matches!(
        Auth::detect("0123456789abcdef0123456789abcdef".to_string()),
        Auth::V3Key(_)
    ));
}

#[test]
fn years_are_the_first_four_bytes() {
    assert_eq!(year_of(Some("2020-01-10")), Some("2020"));
    assert_eq!(year_of(Some("")), None);
    assert_eq!(year_of(Some("99")), None);
    assert_eq!(year_of(None), None);
    // A character that straddles byte four gives no year.
    assert_eq!(year_of(Some("abc\u{e9}")), None);
    assert_eq!(year_of(Some("ab\u{e9}x")), Some("ab\u{e9}"));
    let series = Series { name: "S".to_string(), first_air_date: Some("1999-09-09".to_string()) };
    assert_eq!(series.first_air_year(), Some("1999"));
    let movie = Movie { title: "M".to_string(), release_date: None, runtime: None };
    assert_eq!(movie.release_year(), None);
}

#[test]
fn sheet_sits_next_to_input() {
    assert_eq!(output_path("rips/title 01.mkv"), "rips/title 01_sheet.png");
}

#[test]
fn sheet_paths_follow_path_rules() {
    assert_eq!(output_path("title.mkv"), "title_sheet.png");
    assert_eq!(output_path("/rips/./a.b.mkv"), "/rips/a.b_sheet.png");
    assert_eq!(output_path("./a.mkv"), "./a_sheet.png");
    assert_eq!(output_path("rips//.hidden"), "rips/.hidden_sheet.png");
    assert_eq!(output_path("rips/.."), "rips/../_sheet.png");
    assert_eq!(output_path("/"), "/_sheet.png");
}
