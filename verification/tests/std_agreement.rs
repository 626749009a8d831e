//! The library's readings of paths, numbers, lines and whitespace agree
//! with std's own on a spread of inputs.

use std::io::BufRead;
use std::path::Path;

use lyrebird::apply::partial_path;
use lyrebird::manifest::tsv_lines;
use lyrebird::number::{parse_unsigned_str, NumberError};
use lyrebird::rename_plan::extension_of;
use lyrebird::sheet::output_path;
use lyrebird::text::trim_str;
use lyrebird::tmdb::year_of;

const PATHS: &[&str] = &[
    "", "/", "//", ".", "..", "./", "../", "a", "a.mkv", "a.b.mkv", ".hidden", "..x", "x..",
    "name.", "dir/a.mkv", "dir/a.mkv/", "dir//a.mkv", "dir/./a.mkv", "dir/a.mkv/.", "/a.mkv",
    "//a.mkv", "./a.mkv", "../a.mkv", "dir/..", "dir/../", "dir/.", "a/b/c.d.e", "/x/y/",
    "rips/title 01.mkv", ". /a", " ./a", "a/ /b.mp4", "/./a", "/.", "x/.../y", "\u{e9}t\u{e9}.mkv",
];

#[test]
fn extension_matches_std_path() {
    for p in PATHS {
        let expected = Path::new(p)
            .extension()
            .and_then(|e| e.to_str())
            .unwrap_or("mkv");
        assert_eq!(extension_of(p), expected, "extension of {p:?}");
    }
}

#[test]
fn sheet_path_matches_std_with_file_name() {
    for p in PATHS {
        let input = Path::new(p);
        let stem = input.file_stem().unwrap_or_default().to_string_lossy();
        let expected = input.with_file_name(format!("{stem}_sheet.png"));
        assert_eq!(output_path(p), expected.to_str().unwrap(), "sheet of {p:?}");
    }
}

#[test]
fn years_match_std_get() {
    for d in ["2020-01-10", "", "1", "199", "1999", "ab\u{e9}", "a\u{e9}b", "\u{1f600}x", "abc\u{e9}"] {
        let expected = Some(d).and_then(|d| d.get(..4)).filter(|y| !y.is_empty());
        assert_eq!(year_of(Some(d)), expected, "year of {d:?}");
    }
}

#[test]
fn numbers_match_std_parse() {
    for s in [
        "", "+", "-", "0", "+0", "-0", "007", "42", "4294967295", "4294967296", "99999999999",
        "1a", "a1", "+-1", "1 ", " 1", "\u{660}", "18446744073709551615", "18446744073709551616",
    ] {
        let ours = parse_unsigned_str(s, u32::MAX as u64);
        let std = s.parse::<u32>();
        match (ours, std) {
            (Ok(a), Ok(b)) => assert_eq!(a, b as u64, "{s:?}"),
            (Err(e), Err(err)) => {
                let kind = match err.kind() {
                    std::num::IntErrorKind::Empty => NumberError::Empty,
                    std::num::IntErrorKind::InvalidDigit => NumberError::InvalidDigit,
                    std::num::IntErrorKind::PosOverflow => NumberError::TooLarge,
                    other => panic!("unexpected {other:?}"),
                };
                assert_eq!(e, kind, "{s:?}");
                assert_eq!(e.message(), err.to_string(), "{s:?}");
            }
            (a, b) => panic!("{s:?}: {a:?} vs {b:?}"),
        }
        let ours = parse_unsigned_str(s, u64::MAX);
        assert_eq!(ours.ok(), s.parse::<u64>().ok(), "{s:?}");
    }
}

#[test]
fn trim_matches_std() {
    for s in ["", " ", " a ", "\u{a0}a\u{3000}", "\t\n a b \r", "\u{200b}x\u{200b}", "\u{85}y\u{2029}"] {
        assert_eq!(trim_str(s), s.trim(), "{s:?}");
    }
}

#[test]
fn rows_follow_bufread_lines() {
    let text = "a|b\r\n\rc\r\n\n# x\n d \t e \r\nlast\r";
    let lines: Vec<String> = text.as_bytes().lines().map(|l| l.unwrap()).collect();
    let expected: Vec<(u64, Vec<String>)> = lines
        .iter()
        .enumerate()
        .filter(|(_, l)| !l.trim().is_empty() && !l.trim().starts_with('#'))
        .map(|(i, l)| {
            let sep = if l.contains('\t') { '\t' } else { '|' };
            (i as u64 + 1, l.split(sep).map(|f| f.trim().to_string()).collect())
        })
        .collect();
    let got: Vec<(u64, Vec<String>)> = tsv_lines(text).into_iter().map(|r| (r.line, r.fields)).collect();
    assert_eq!(got, expected);
}

#[test]
fn partial_path_matches_std_with_file_name() {
    for p in PATHS {
        let path = Path::new(p);
        let mut name = path.file_name().unwrap_or_default().to_os_string();
        name.push(".lyrebird-partial");
        let expected = path.with_file_name(name);
        assert_eq!(partial_path(p), expected.to_str().unwrap(), "partial of {p:?}");
    }
}
