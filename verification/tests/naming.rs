use lyrebird::rename_plan::{clean_root, extension_of, extra_path, movie_path, sanitize, tv_path, under, with_year};

#[test]
fn tv_path_matches_library_convention() {
    assert_eq!(
        tv_path(
            "The Owl House",
            Some("2020"),
            1,
            1,
            None,
            "A Lying Witch and a Warden",
            "mkv"
        ),
        "The Owl House (2020)/Season 01/The Owl House - s01e01 - A Lying Witch and a Warden.mkv"
    );
}

#[test]
fn tv_path_without_year_omits_parens() {
    assert_eq!(
        tv_path("Some Show", None, 2, 10, None, "Title", "mkv"),
        "Some Show/Season 02/Some Show - s02e10 - Title.mkv"
    );
}

#[test]
fn tv_path_episode_range() {
    assert_eq!(
        tv_path(
            "Some Show",
            Some("1999"),
            1,
            1,
            Some(2),
            "Part One & Part Two",
            "mkv"
        ),
        "Some Show (1999)/Season 01/Some Show - s01e01-e02 - Part One & Part Two.mkv"
    );
}

#[test]
fn tv_path_wide_numbers_are_not_cut() {
    assert_eq!(
        tv_path("Long: Show", None, 123, 4567, Some(4570), "X?", "mp4"),
        "Long Show/Season 123/Long Show - s123e4567-e4570 - X.mp4"
    );
}

#[test]
fn movie_path_matches_library_convention() {
    assert_eq!(
        movie_path("Airplane!", Some("1980"), "mkv"),
        "Airplane! (1980)/Airplane! (1980).mkv"
    );
}

#[test]
fn roots_prefix_targets() {
    assert_eq!(
        under(&Some("/media/tv".to_string()), "A (2020)/a.mkv".to_string()),
        "/media/tv/A (2020)/a.mkv"
    );
    assert_eq!(under(&None, "A (2020)/a.mkv".to_string()), "A (2020)/a.mkv");

    assert_eq!(
        clean_root("/media/tv/".to_string()),
        Some("/media/tv".to_string())
    );
    assert_eq!(clean_root("  ".to_string()), None);
}

#[test]
fn clean_root_strips_every_trailing_slash() {
    assert_eq!(clean_root(" /srv/media// \n".to_string()), Some("/srv/media".to_string()));
    assert_eq!(clean_root("///".to_string()), None);
}

#[test]
fn extra_paths_land_in_jellyfin_folders() {
    assert_eq!(
        extra_path(
            "Ghosts of the Abyss (2003)",
            None,
            "featurettes",
            "Echos in Time",
            "mkv"
        ),
        "Ghosts of the Abyss (2003)/featurettes/Echos in Time.mkv"
    );
    assert_eq!(
        extra_path("Some Show (1999)", Some(2), "extras", "Gag Reel", "mkv"),
        "Some Show (1999)/Season 02/extras/Gag Reel.mkv"
    );
}

#[test]
fn sanitize_strips_illegal_chars() {
    assert_eq!(sanitize("What / Why: A \"Story\"?"), "What  Why A Story");
    assert_eq!(sanitize("Airplane!"), "Airplane!");
}

#[test]
fn sanitize_trims_what_is_left() {
    assert_eq!(sanitize("  <Title>  "), "Title");
    assert_eq!(sanitize("***"), "");
}

#[test]
fn with_year_appends_in_parens() {
    assert_eq!(with_year("Show", Some("2020")), "Show (2020)");
    assert_eq!(with_year("Show", None), "Show");
}

#[test]
fn extension_follows_source() {
    assert_eq!(extension_of("title_01.mp4"), "mp4");
    assert_eq!(extension_of("title_01"), "mkv");
}

#[test]
fn extension_follows_path_rules() {
    assert_eq!(extension_of("rips/.hidden"), "mkv");
    assert_eq!(extension_of("rips/a.b.m4v/"), "m4v");
    assert_eq!(extension_of("name."), "");
    assert_eq!(extension_of("dir.d/.."), "mkv");
}

#[test]
fn sanitize_twice_is_sanitize_once() {
    for name in ["  <Who?> Are: You*  ", "a/b\\c", "plain", " \t ", "??", "Héllo | Wörld "] {
        let once = sanitize(name);
        assert_eq!(sanitize(&once), once, "sanitize of {name:?}");
    }
}
