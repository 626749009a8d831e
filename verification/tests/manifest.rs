use lyrebird::manifest::{
    expect_marker, parse_episode_range, parse_reader, parse_record, parse_text, template_text,
    tsv_lines, Column, FileKind, ManifestError, ManifestRow, RowError,
};
use lyrebird::number::NumberError;

#[test]
fn parses_all_row_kinds() {
    let manifest = "# a comment\n\
                    title_01.mkv\ttv\t84958\t1\t1\n\
                    \n\
                    special_01.mkv\tmanual\tShow.S00E01.Behind.The.Scenes.mkv\t600\n\
                    extra.mkv\tmanual\tExtra.mkv\n\
                    movie_rip.mkv\tmovie\t603\n";
    let rows = parse_reader(manifest).unwrap();
    assert_eq!(rows.len(), 4);

    match &rows[0] {
        ManifestRow::Tv {
            source,
            series_id,
            season,
            episode,
            episode_end,
            ..
        } => {
            assert_eq!(source, "title_01.mkv");
            assert_eq!((*series_id, *season, *episode), (84958, 1, 1));
            assert_eq!(*episode_end, None);
        }
        other => panic!("expected tv row, got {other:?}"),
    }
    match &rows[1] {
        ManifestRow::Manual {
            expected_duration, ..
        } => {
            assert_eq!(*expected_duration, Some(600));
        }
        other => panic!("expected manual row, got {other:?}"),
    }
    match &rows[2] {
        ManifestRow::Manual {
            expected_duration, ..
        } => {
            assert_eq!(*expected_duration, None);
        }
        other => panic!("expected manual row, got {other:?}"),
    }
    match &rows[3] {
        ManifestRow::Movie { movie_id, .. } => assert_eq!(*movie_id, 603),
        other => panic!("expected movie row, got {other:?}"),
    }
}

#[test]
fn parses_episode_ranges() {
    let rows = parse_reader("double.mkv\ttv\t84958\t1\t3-4\n").unwrap();
    match &rows[0] {
        ManifestRow::Tv {
            episode,
            episode_end,
            ..
        } => {
            assert_eq!(*episode, 3);
            assert_eq!(*episode_end, Some(4));
        }
        other => panic!("expected tv row, got {other:?}"),
    }
}

#[test]
fn rejects_backwards_episode_range() {
    let err = parse_reader("x.mkv\ttv\t84958\t1\t4-3\n").unwrap_err();
    assert!(err.message().contains("end must be greater than start"));

    let err = parse_reader("x.mkv\ttv\t84958\t1\t3-3\n").unwrap_err();
    assert!(err.message().contains("end must be greater than start"));
}

#[test]
fn rejects_unknown_kind() {
    let err = parse_reader("x.mkv\tbogus\t1\n").unwrap_err();
    assert!(err.message().contains("unknown row kind 'bogus'"));
}

#[test]
fn reports_line_number_on_error() {
    let err = parse_reader("a.mkv\ttv\t1\t1\t1\nb.mkv\ttv\tnot_a_number\t1\t1\n").unwrap_err();
    assert!(err.message().contains("line 2"));
}

#[test]
fn parses_pipe_separated_readme_example() {
    let manifest = "#lyrebird:manifest\n\
        title_01.mkv  | tv    | 84958  | 1 | 1\n\
        title_02.mkv  | tv    | 84958  | 1 | 2   | Witches Before Wizards\n\
        title_03.mkv  | tv    | 84958  | 1 | 3-4\n\
        movie_rip.mkv | movie | 161795\n\
        making_of.mkv | movie-extra | 161795 | featurettes | Reflections from the Deep\n\
        gag_reel.mkv  | tv-extra    | 84958  | 2 | extras  | Gag Reel\n\
        oddball.mkv   | manual | Show (2020)/Season 00/Show - s00e01 - Pilot Workprint.mkv | 1290\n";
    let rows = parse_text(manifest).unwrap();
    assert_eq!(rows.len(), 7);
    match &rows[1] {
        ManifestRow::Tv { source, episode, expected_title, .. } => {
            assert_eq!(source, "title_02.mkv");
            assert_eq!(*episode, 2);
            assert_eq!(expected_title.as_deref(), Some("Witches Before Wizards"));
        }
        other => panic!("expected tv row, got {other:?}"),
    }
    match &rows[4] {
        ManifestRow::MovieExtra { movie_id, extra_type, name, expected_duration, .. } => {
            assert_eq!(*movie_id, 161795);
            assert_eq!(extra_type, "featurettes");
            assert_eq!(name, "Reflections from the Deep");
            assert_eq!(*expected_duration, None);
        }
        other => panic!("expected movie-extra row, got {other:?}"),
    }
    match &rows[5] {
        ManifestRow::TvExtra { series_id, season, extra_type, name, .. } => {
            assert_eq!(*series_id, 84958);
            assert_eq!(*season, Some(2));
            assert_eq!(extra_type, "extras");
            assert_eq!(name, "Gag Reel");
        }
        other => panic!("expected tv-extra row, got {other:?}"),
    }
    match &rows[6] {
        ManifestRow::Manual { new_name, expected_duration, .. } => {
            assert_eq!(new_name, "Show (2020)/Season 00/Show - s00e01 - Pilot Workprint.mkv");
            assert_eq!(*expected_duration, Some(1290));
        }
        other => panic!("expected manual row, got {other:?}"),
    }
}

#[test]
fn tv_extra_season_may_be_left_blank() {
    let rows = parse_reader("bonus.mkv | tv-extra | 84958 | | extras | Bonus | 300\n").unwrap();
    match &rows[0] {
        ManifestRow::TvExtra { season, expected_duration, .. } => {
            assert_eq!(*season, None);
            assert_eq!(*expected_duration, Some(300));
        }
        other => panic!("expected tv-extra row, got {other:?}"),
    }
}

#[test]
fn rejects_unknown_extra_type() {
    let err = parse_reader("x.mkv | movie-extra | 1 | bloopers | Fun\n").unwrap_err();
    assert!(err.message().contains("unknown extra type 'bloopers'"));
}

#[test]
fn reports_missing_columns() {
    let err = parse_reader("x.mkv | movie\n").unwrap_err();
    assert_eq!(err.message(), "manifest line 1: missing tmdb_movie_id column");
    match err {
        ManifestError::Row { line, error: RowError::MissingColumn(Column::MovieId) } => {
            assert_eq!(line, 1)
        }
        other => panic!("unexpected error {other:?}"),
    }
}

#[test]
fn number_errors_follow_parse_int_error() {
    let err = parse_reader("x.mkv | movie | 99999999999\n").unwrap_err();
    assert_eq!(
        err.message(),
        "manifest line 1: invalid tmdb_movie_id '99999999999': number too large to fit in target type"
    );
    let err = parse_reader("x.mkv | manual | y.mkv | 12s\n").unwrap_err();
    assert_eq!(
        err.message(),
        "manifest line 1: invalid expected_duration_secs '12s': invalid digit found in string"
    );
    match parse_episode_range("-4") {
        Err(RowError::InvalidEpisodeRange { cause, .. }) => assert_eq!(cause, NumberError::Empty),
        other => panic!("unexpected {other:?}"),
    }
    assert_eq!(parse_episode_range("+7").unwrap(), (7, None));
    assert_eq!(parse_episode_range(" 3 - 5 ").unwrap(), (3, Some(5)));
}

#[test]
fn manifest_needs_its_marker() {
    let err = parse_text("title_01.mkv | tv | 1 | 1 | 1\n").unwrap_err();
    assert!(err.message().contains("missing '#lyrebird:manifest' marker"));
    let err = parse_text("#lyrebird:renames\na.mkv | b.mkv\n").unwrap_err();
    assert!(err.message().contains("not a manifest"));
}

#[test]
fn rows_keep_file_line_numbers() {
    let rows = tsv_lines("# c\r\n\r\na | b \r\n  \n c\td | e\n#x\nlast");
    let got: Vec<(u64, Vec<String>)> = rows.into_iter().map(|r| (r.line, r.fields)).collect();
    assert_eq!(
        got,
        vec![
            (3, vec!["a".to_string(), "b".to_string()]),
            (5, vec!["c".to_string(), "d | e".to_string()]),
            (7, vec!["last".to_string()]),
        ]
    );
}

#[test]
fn record_fields_are_trimmed_again() {
    let fields = vec![" a.mkv ".to_string(), " movie ".to_string(), " 12 ".to_string()];
    match parse_record(&fields).unwrap() {
        ManifestRow::Movie { source, movie_id, expected_title } => {
            assert_eq!(source, "a.mkv");
            assert_eq!(movie_id, 12);
            assert_eq!(expected_title, None);
        }
        other => panic!("unexpected {other:?}"),
    }
}

#[test]
fn template_lists_each_file_under_the_marker() {
    let text = template_text(&["title_01.mkv".to_string(), "title_02.mkv".to_string()]);
    assert_eq!(
        text,
        "#lyrebird:manifest\n\
         # source | kind (tv, movie, movie-extra, tv-extra, manual) | the columns of that kind\n\
         title_01.mkv |\n\
         title_02.mkv |\n"
    );
    assert!(expect_marker(&text, FileKind::Manifest).is_ok());
    assert!(expect_marker(&text, FileKind::RenamePlan).is_err());
}
