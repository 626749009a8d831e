use lyrebird::manifest::parse_reader;
use lyrebird::rename_plan::{
    lookups, plan_text, read_reader, read_text, resolve, runtimes_fit, Catalog, EpisodeEntry,
    Lookup, MovieEntry, PlanError, RenamePlan, ResolveError, Roots, SeriesEntry, TitleHint,
};
use lyrebird::tmdb::{Episode, Movie, Series};

#[test]
fn read_parses_pipe_rows() {
    let plan = "a.mkv | A (2020)/A.mkv | 600\n\
                b with space.mkv | B (1999)/B.mkv\n";
    let entries = read_reader(plan).unwrap();
    assert_eq!(entries.len(), 2);
    assert_eq!(entries[0].plan.new, "A (2020)/A.mkv");
    assert_eq!(entries[0].plan.expected_duration_secs, Some(600));
    assert_eq!(entries[1].plan.old, "b with space.mkv");
    assert_eq!(entries[1].plan.expected_duration_secs, None);
}

#[test]
fn read_parses_plan_rows() {
    let plan = "# comment\n\
                a.mkv\tA (2020)/A.mkv\t600\n\
                b.mkv\tB (1999)/B.mkv\t\n\
                c.mkv\tC (2001)/C.mkv\n";
    let entries = read_reader(plan).unwrap();
    assert_eq!(entries.len(), 3);
    assert_eq!(entries[0].line, 2);
    assert_eq!(entries[0].plan.old, "a.mkv");
    assert_eq!(entries[0].plan.expected_duration_secs, Some(600));
    assert_eq!(entries[1].plan.expected_duration_secs, None);
    assert_eq!(entries[2].plan.expected_duration_secs, None);
}

#[test]
fn read_rejects_missing_target() {
    let err = read_reader("only_one_column.mkv\n").unwrap_err();
    assert!(err.message().contains("missing new path"));
}

#[test]
fn read_reports_bad_durations() {
    let err = read_reader("# c\na.mkv | b.mkv | ten\n").unwrap_err();
    assert_eq!(
        err.message(),
        "plan line 2: invalid expected_duration_secs 'ten': invalid digit found in string"
    );
    match err {
        PlanError::InvalidDuration { line, .. } => assert_eq!(line, 2),
        other => panic!("unexpected {other:?}"),
    }
}

#[test]
fn write_then_read_roundtrips_with_marker() {
    let plans = [RenamePlan {
        old: "a.mkv".to_string(),
        new: "A (2020)/A.mkv".to_string(),
        expected_duration_secs: Some(600),
    }];
    let text = plan_text(&plans);
    assert!(text.starts_with("#lyrebird:renames\n"));
    let entries = read_text(&text).unwrap();
    assert_eq!(entries.len(), 1);
    assert_eq!(entries[0].plan.new, "A (2020)/A.mkv");
}

#[test]
fn plan_text_layout() {
    let plans = [
        RenamePlan { old: "a.mkv".to_string(), new: "A/a.mkv".to_string(), expected_duration_secs: Some(1320) },
        RenamePlan { old: "b.mkv".to_string(), new: "B/b.mkv".to_string(), expected_duration_secs: None },
    ];
    assert_eq!(
        plan_text(&plans),
        "#lyrebird:renames\na.mkv | A/a.mkv | 1320\nb.mkv | B/b.mkv\n"
    );
    let entries = read_text(&plan_text(&plans)).unwrap();
    assert_eq!(entries.len(), 2);
    assert_eq!(entries[1].line, 3);
    assert_eq!(entries[1].plan.old, "b.mkv");
    assert_eq!(entries[1].plan.expected_duration_secs, None);
    assert_eq!(entries[0].plan.expected_duration_secs, Some(1320));
}

#[test]
fn read_rejects_wrong_file_kind() {
    let err = read_text("#lyrebird:manifest\na.mkv\ttv\t1\t1\t1\n").unwrap_err();
    assert!(err.message().contains("run lyrebird resolve on it first"));
    let err = read_text("a.mkv | b.mkv\n").unwrap_err();
    assert!(err.message().contains("missing '#lyrebird:renames' marker"));
}

fn catalog() -> Catalog {
    let mut c = Catalog::new();
    c.series.push(SeriesEntry {
        id: 84958,
        series: Series { name: "The Owl House".to_string(), first_air_date: Some("2020-01-10".to_string()) },
    });
    for (ep, name, runtime) in [
        (1, "A Lying Witch and a Warden", Some(22)),
        (2, "Witches Before Wizards", Some(22)),
        (3, "I Was a Teenage Abomination", Some(23)),
        (4, "Hooty's Moving Hassle", None),
    ] {
        c.episodes.push(EpisodeEntry {
            series_id: 84958,
            season: 1,
            episode: ep,
            details: Episode { name: name.to_string(), runtime },
        });
    }
    c.movies.push(MovieEntry {
        id: 161795,
        movie: Movie {
            title: "Ghosts of the Abyss".to_string(),
            release_date: Some("2003-04-11".to_string()),
            runtime: Some(61),
        },
    });
    c
}

#[test]
fn resolve_builds_library_paths() {
    let rows = parse_reader(
        "t1.mkv | tv | 84958 | 1 | 1\n\
         t2.mkv | tv | 84958 | 1 | 2-3 | Witches Before Wizards\n\
         m.mp4 | movie | 161795 | Ghosts\n\
         x.mkv | movie-extra | 161795 | featurettes | Echos in Time | 300\n\
         g.mkv | tv-extra | 84958 | 2 | extras | Gag Reel\n\
         o.mkv | manual | Show/Special.mkv | 1290\n",
    )
    .unwrap();
    let roots = Roots { tv: Some("/media/tv".to_string()), movie: None };
    let cat = catalog();
    assert!(runtimes_fit(&rows, &cat, &roots));
    let res = resolve(&rows, &cat, &roots).unwrap();
    let news: Vec<&str> = res.plans.iter().map(|p| p.new.as_str()).collect();
    assert_eq!(
        news,
        vec![
            "/media/tv/The Owl House (2020)/Season 01/The Owl House - s01e01 - A Lying Witch and a Warden.mkv",
            "/media/tv/The Owl House (2020)/Season 01/The Owl House - s01e02-e03 - Witches Before Wizards & I Was a Teenage Abomination.mkv",
            "Ghosts of the Abyss (2003)/Ghosts of the Abyss (2003).mp4",
            "Ghosts of the Abyss (2003)/featurettes/Echos in Time.mkv",
            "/media/tv/The Owl House (2020)/Season 02/extras/Gag Reel.mkv",
            "Show/Special.mkv",
        ]
    );
    let durations: Vec<Option<u64>> = res.plans.iter().map(|p| p.expected_duration_secs).collect();
    assert_eq!(durations, vec![Some(1320), Some(2700), Some(3660), Some(300), None, Some(1290)]);
    assert_eq!(res.title_checks.len(), 2);
    assert_eq!(res.title_checks[0].source, "t2.mkv");
    assert_eq!(
        res.title_checks[0].candidates,
        vec![
            "Witches Before Wizards".to_string(),
            "I Was a Teenage Abomination".to_string(),
            "Witches Before Wizards & I Was a Teenage Abomination".to_string(),
        ]
    );
    assert_eq!(res.title_checks[0].hint, TitleHint::Episode);
    assert_eq!(res.title_checks[1].returned, "Ghosts of the Abyss");
    assert_eq!(res.title_checks[1].hint, TitleHint::Movie);
}

#[test]
fn resolve_unknown_runtime_leaves_duration_open() {
    let rows = parse_reader("t.mkv | tv | 84958 | 1 | 3-4\n").unwrap();
    let cat = catalog();
    let res = resolve(&rows, &cat, &Roots::default()).unwrap();
    assert_eq!(res.plans[0].expected_duration_secs, None);
}

#[test]
fn resolve_reports_first_missing_answer() {
    let rows = parse_reader("t.mkv | tv | 84958 | 1 | 4-6\nm.mkv | movie | 7\n").unwrap();
    let cat = catalog();
    match resolve(&rows, &cat, &Roots::default()) {
        Err(ResolveError::MissingEpisode { source, episode, .. }) => {
            assert_eq!(source, "t.mkv");
            assert_eq!(episode, 5);
        }
        other => panic!("unexpected {other:?}"),
    }
}

#[test]
fn runtime_overflow_is_detected() {
    let rows = parse_reader("m.mkv | movie | 1\n").unwrap();
    let mut cat = Catalog::new();
    cat.movies.push(MovieEntry {
        id: 1,
        movie: Movie { title: "Long".to_string(), release_date: None, runtime: Some(u64::MAX / 10) },
    });
    assert!(!runtimes_fit(&rows, &cat, &Roots::default()));
}

#[test]
fn lookups_fetch_each_series_and_movie_once() {
    let rows = parse_reader(
        "a.mkv | tv | 1 | 1 | 1\n\
         b.mkv | tv | 1 | 1 | 2-3\n\
         c.mkv | movie | 9\n\
         d.mkv | movie-extra | 9 | trailers | Trailer\n\
         e.mkv | tv-extra | 1 | | extras | Bonus\n\
         f.mkv | tv-extra | 2 | | extras | Other\n",
    )
    .unwrap();
    let ls: Vec<(String, Lookup)> = lookups(&rows).into_iter().map(|l| (l.source, l.lookup)).collect();
    let expected = vec![
        ("a.mkv", Lookup::Series(1)),
        ("a.mkv", Lookup::Episode { series_id: 1, season: 1, episode: 1 }),
        ("b.mkv", Lookup::Episode { series_id: 1, season: 1, episode: 2 }),
        ("b.mkv", Lookup::Episode { series_id: 1, season: 1, episode: 3 }),
        ("c.mkv", Lookup::Movie(9)),
        ("f.mkv", Lookup::Series(2)),
    ];
    let expected: Vec<(String, Lookup)> = expected.into_iter().map(|(s, l)| (s.to_string(), l)).collect();
    assert_eq!(ls, expected);
}

#[test]
fn resolve_title_without_usable_characters_leaves_folder_empty() {
    let rows = parse_reader("m.mkv | movie | 9\n").unwrap();
    let mut cat = Catalog::new();
    cat.movies.push(MovieEntry {
        id: 9,
        movie: Movie { title: "???".to_string(), release_date: None, runtime: None },
    });
    let res = resolve(&rows, &cat, &Roots::default()).unwrap();
    assert_eq!(res.plans[0].new, "/.mkv");
}
