use media_recommend::paths::{display_path, LibPath};
use media_recommend::pipeline::{
    find_record, parse_format, render, render_json, render_m3u8, render_table_rows, resolve_step,
    select_identifier, FileRecord, ItemIdentifier, OutputFormat, PipelineError,
    RecommendationEntry, RenderOutput, ResolveAction, TableRow,
};

fn chars(s: &str) -> Vec<char> {
    s.chars().collect()
}

fn path(s: &str) -> LibPath {
    let absolute = s.starts_with('/');
    let components = s
        .split('/')
        .filter(|c| !c.is_empty())
        .map(|c| c.chars().collect())
        .collect();
    LibPath { absolute, components }
}

fn text(v: &[char]) -> String {
    v.iter().collect()
}

fn path_text(p: &LibPath) -> String {
    text(&display_path(p))
}

fn entry(item_id: u64, distance_ten_thousandths: u64) -> RecommendationEntry {
    RecommendationEntry { item_id, distance_ten_thousandths }
}

fn record(id: u64, directory: &str, file_name: &str) -> FileRecord {
    FileRecord {
        id,
        directory: directory
            .split('/')
            .filter(|c| !c.is_empty())
            .map(|c| c.chars().collect())
            .collect(),
        file_name: file_name.chars().collect(),
    }
}

fn row_strings(rows: &[TableRow]) -> Vec<(String, String, String)> {
    rows.iter()
        .map(|r| (text(&r.id_text), text(&r.distance_text), text(&r.path_text)))
        .collect()
}

#[test]
fn select_identifier_prefers_direct_id() {
    match select_identifier(Some(42), Some(path("/lib/a.mp3"))) {
        Ok(ItemIdentifier::Id(id)) => assert_eq!(id, 42),
        _ => panic!("expected the direct id"),
    }
}

#[test]
fn select_identifier_takes_the_file_path() {
    match select_identifier(None, Some(path("/lib/a.mp3"))) {
        Ok(ItemIdentifier::FilePath(p)) => assert_eq!(path_text(&p), "/lib/a.mp3"),
        _ => panic!("expected the file path"),
    }
}

#[test]
fn select_identifier_with_neither_is_a_usage_error() {
    assert_eq!(select_identifier(None, None).unwrap_err(), PipelineError::UsageError);
}

#[test]
fn resolve_step_passes_an_id_through() {
    match resolve_step(ItemIdentifier::Id(42)) {
        ResolveAction::Resolved(id) => assert_eq!(id, 42),
        _ => panic!("a direct id needs no lookup"),
    }
}

#[test]
fn resolve_step_asks_for_a_lookup() {
    match resolve_step(ItemIdentifier::FilePath(path("/lib/a.mp3"))) {
        ResolveAction::LookupPath(p) => assert_eq!(path_text(&p), "/lib/a.mp3"),
        _ => panic!("a file path needs a lookup"),
    }
}

#[test]
fn parse_format_reads_the_selectors() {
    assert_eq!(parse_format(&None), OutputFormat::Table);
    assert_eq!(parse_format(&Some(chars("json"))), OutputFormat::Json);
    assert_eq!(parse_format(&Some(chars("m3u8"))), OutputFormat::M3u8);
    assert_eq!(parse_format(&Some(chars("xml"))), OutputFormat::Unsupported);
    assert_eq!(parse_format(&Some(chars(""))), OutputFormat::Unsupported);
}

#[test]
fn find_record_returns_the_first_match() {
    let records = vec![record(7, "a", "x.mp3"), record(9, "b", "y.mp3"), record(7, "c", "z.mp3")];
    assert_eq!(find_record(&records, 7), Some(0));
    assert_eq!(find_record(&records, 9), Some(1));
    assert_eq!(find_record(&records, 8), None);
}

#[test]
fn three_recommendations_render_three_table_rows() {
    let entries = vec![entry(7, 1234), entry(12, 5000), entry(99, 20000)];
    let records = vec![
        record(7, "rock", "a.mp3"),
        record(12, "jazz", "b.mp3"),
        record(99, "pop", "c.mp3"),
    ];
    let rows = render_table_rows(&entries, &records, &path("/lib"));
    assert_eq!(
        row_strings(&rows),
        vec![
            ("00007".to_string(), "0.1234".to_string(), "/lib/rock/a.mp3".to_string()),
            ("00012".to_string(), "0.5000".to_string(), "/lib/jazz/b.mp3".to_string()),
            ("00099".to_string(), "2.0000".to_string(), "/lib/pop/c.mp3".to_string()),
        ]
    );
}

#[test]
fn wide_ids_are_not_truncated() {
    let entries = vec![entry(1234567, 15000)];
    let records = vec![record(1234567, "rock", "a.mp3")];
    let rows = render_table_rows(&entries, &records, &path("/lib"));
    assert_eq!(row_strings(&rows), vec![(
        "1234567".to_string(),
        "1.5000".to_string(),
        "/lib/rock/a.mp3".to_string(),
    )]);
}

#[test]
fn table_skips_entries_without_a_record() {
    let entries = vec![entry(7, 1234), entry(8, 2000), entry(12, 5000)];
    let records = vec![record(7, "rock", "a.mp3"), record(12, "jazz", "b.mp3")];
    let rows = render_table_rows(&entries, &records, &path("/lib"));
    assert_eq!(rows.len(), 2);
    assert_eq!(text(&rows[0].id_text), "00007");
    assert_eq!(text(&rows[1].id_text), "00012");
}

#[test]
fn json_renders_entries_in_retrieval_order() {
    let entries = vec![entry(7, 1234), entry(12, 5000)];
    assert_eq!(text(&render_json(&entries)), "[[7,0.1234],[12,0.5000]]");
}

#[test]
fn json_of_no_entries_is_an_empty_array() {
    assert_eq!(text(&render_json(&vec![])), "[]");
}

#[test]
fn json_keeps_entries_without_a_record() {
    let entries = vec![entry(7, 1234), entry(8, 2000)];
    let out = text(&render_json(&entries));
    assert!(out.contains("[8,0.2000]"));
}

#[test]
fn json_output_parses_back() {
    let entries = vec![entry(7, 1234), entry(12, 5000), entry(99, 20000)];
    let out = text(&render_json(&entries));
    let parsed: Vec<(u64, f64)> = serde_json::from_str(&out).unwrap();
    assert_eq!(parsed.len(), 3);
    assert_eq!(parsed[0].0, 7);
    assert_eq!(parsed[1].0, 12);
    assert_eq!(parsed[2].0, 99);
    assert!((parsed[0].1 - 0.1234).abs() < 1e-9);
    assert!((parsed[2].1 - 2.0).abs() < 1e-9);
}

#[test]
fn m3u8_lists_relative_paths_in_order() {
    let entries = vec![entry(7, 1234), entry(12, 5000)];
    let records = vec![record(7, "rock", "a.mp3"), record(12, "jazz", "b.mp3")];
    let out = render_m3u8(&entries, &records, &path("/lib"), &path("/lib/playlists")).unwrap();
    assert_eq!(text(&out), "#EXTM3U\n../rock/a.mp3\n../jazz/b.mp3\n");
}

#[test]
fn m3u8_skips_entries_without_a_record() {
    let entries = vec![entry(7, 1234), entry(8, 2000)];
    let records = vec![record(7, "rock", "a.mp3")];
    let out = render_m3u8(&entries, &records, &path("/lib"), &path("/lib/playlists")).unwrap();
    assert_eq!(text(&out), "#EXTM3U\n../rock/a.mp3\n");
}

#[test]
fn m3u8_reports_a_path_error_on_an_unrooted_playlist_directory() {
    let entries = vec![entry(7, 1234)];
    let records = vec![record(7, "rock", "a.mp3")];
    let err = render_m3u8(&entries, &records, &path("/lib"), &path("playlists")).unwrap_err();
    assert_eq!(err, PipelineError::PathError);
}

#[test]
fn render_json_writes_the_corrected_path() {
    let entries = vec![entry(7, 1234), entry(12, 5000)];
    let records = vec![record(7, "rock", "a.mp3"), record(12, "jazz", "b.mp3")];
    let out = render(&entries, &records, &Some(chars("json")), &Some(path("out")), &path("/lib"));
    match out.unwrap() {
        RenderOutput::FileArtifact { path: p, contents, extension_corrected } => {
            assert_eq!(path_text(&p), "/lib/out.json");
            assert!(extension_corrected);
            assert_eq!(text(&contents), "[[7,0.1234],[12,0.5000]]");
        },
        _ => panic!("expected a file artifact"),
    }
}

#[test]
fn render_json_keeps_a_right_extension_without_a_warning() {
    let entries = vec![entry(7, 1234)];
    let records = vec![];
    let out = render(
        &entries,
        &records,
        &Some(chars("json")),
        &Some(path("out.json")),
        &path("/lib"),
    );
    match out.unwrap() {
        RenderOutput::FileArtifact { path: p, contents: _, extension_corrected } => {
            assert_eq!(path_text(&p), "/lib/out.json");
            assert!(!extension_corrected);
        },
        _ => panic!("expected a file artifact"),
    }
}

#[test]
fn render_m3u8_targets_the_playlist_directory() {
    let entries = vec![entry(7, 1234), entry(12, 5000)];
    let records = vec![record(7, "rock", "a.mp3"), record(12, "jazz", "b.mp3")];
    let out = render(
        &entries,
        &records,
        &Some(chars("m3u8")),
        &Some(path("playlists/mix")),
        &path("/lib"),
    );
    match out.unwrap() {
        RenderOutput::FileArtifact { path: p, contents, extension_corrected } => {
            assert_eq!(path_text(&p), "/lib/playlists/mix.m3u8");
            assert!(extension_corrected);
            let body = text(&contents);
            assert!(body.starts_with("#EXTM3U\n"));
            assert_eq!(body, "#EXTM3U\n../rock/a.mp3\n../jazz/b.mp3\n");
        },
        _ => panic!("expected a file artifact"),
    }
}

#[test]
fn render_table_when_no_format_is_given() {
    let entries = vec![entry(7, 1234)];
    let records = vec![record(7, "rock", "a.mp3")];
    match render(&entries, &records, &None, &None, &path("/lib")).unwrap() {
        RenderOutput::TableRows(rows) => assert_eq!(rows.len(), 1),
        _ => panic!("expected table rows"),
    }
}

#[test]
fn no_entries_render_an_empty_table_and_playlist() {
    let entries: Vec<RecommendationEntry> = vec![];
    let records = vec![record(7, "rock", "a.mp3")];
    assert!(render_table_rows(&entries, &records, &path("/lib")).is_empty());
    let out = render_m3u8(&entries, &records, &path("/lib"), &path("/lib")).unwrap();
    assert_eq!(text(&out), "#EXTM3U\n");
}

#[test]
fn a_record_at_the_library_root_renders_without_a_directory() {
    let entries = vec![entry(7, 1234)];
    let records = vec![FileRecord {
        id: 7,
        directory: vec![],
        file_name: "a.mp3".chars().collect(),
    }];
    let rows = render_table_rows(&entries, &records, &path("/lib"));
    assert_eq!(text(&rows[0].path_text), "/lib/a.mp3");
    let out = render_m3u8(&entries, &records, &path("/lib"), &path("/lib/playlists")).unwrap();
    assert_eq!(text(&out), "#EXTM3U\n../a.mp3\n");
}

#[test]
fn an_absolute_output_path_replaces_the_root() {
    let entries = vec![entry(7, 1234)];
    let records = vec![];
    let out = render(
        &entries,
        &records,
        &Some(chars("json")),
        &Some(path("/tmp/out")),
        &path("/lib"),
    );
    match out.unwrap() {
        RenderOutput::FileArtifact { path: p, contents: _, extension_corrected } => {
            assert_eq!(path_text(&p), "/tmp/out.json");
            assert!(extension_corrected);
        },
        _ => panic!("expected a file artifact"),
    }
}

#[test]
fn render_rejects_an_unsupported_format() {
    let entries = vec![entry(7, 1234)];
    let records = vec![record(7, "rock", "a.mp3")];
    let err = render(&entries, &records, &Some(chars("xml")), &Some(path("out")), &path("/lib"));
    assert_eq!(err.unwrap_err(), PipelineError::UnsupportedFormat);
}

#[test]
fn render_file_formats_demand_an_output_path() {
    let entries = vec![entry(7, 1234)];
    let records = vec![];
    let json_err = render(&entries, &records, &Some(chars("json")), &None, &path("/lib"));
    assert_eq!(json_err.unwrap_err(), PipelineError::UsageError);
    let m3u8_err = render(&entries, &records, &Some(chars("m3u8")), &None, &path("/lib"));
    assert_eq!(m3u8_err.unwrap_err(), PipelineError::UsageError);
}
