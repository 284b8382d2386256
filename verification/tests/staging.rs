use chunklog::staging::{
    parse_coords, stage_chunk_file, stage_removal_lines, stage_removals, ChangeSet, StagingError,
};

#[test]
fn staging_is_an_incremental_patch() {
    let mut changes = ChangeSet::new();
    assert_eq!(stage_chunk_file(&mut changes, "1,-2", vec![7, 8]), Ok(true));
    stage_removals(&mut changes, "3,4\n# comment\n").unwrap();
    assert_eq!(changes.upserts.get(&(1, -2)).unwrap(), &[7, 8]);
    assert!(changes.removals.contains(&(3, 4)));
}

#[test]
fn conflicting_staging_entries_fail() {
    let mut changes = ChangeSet::new();
    assert_eq!(stage_chunk_file(&mut changes, "1,2", vec![7]), Ok(true));
    assert!(stage_removals(&mut changes, "1,2\n").is_err());
}

#[test]
fn parse_coords_reads_signed_decimals() {
    assert_eq!(parse_coords("1,-2"), Some((1, -2)));
    assert_eq!(parse_coords("+7,0"), Some((7, 0)));
    assert_eq!(parse_coords("-2147483648,2147483647"), Some((i32::MIN, i32::MAX)));
    assert_eq!(parse_coords("2147483648,0"), None);
    assert_eq!(parse_coords("1"), None);
    assert_eq!(parse_coords("1,2,3"), None);
    assert_eq!(parse_coords(",2"), None);
    assert_eq!(parse_coords("a,2"), None);
    assert_eq!(parse_coords(" 1,2"), None);
    assert_eq!(parse_coords("-,2"), None);
    assert_eq!(parse_coords("99999999999999999999,1"), None);
}

#[test]
fn hidden_files_are_skipped_and_bad_names_rejected() {
    let mut changes = ChangeSet::new();
    assert_eq!(stage_chunk_file(&mut changes, ".hidden", vec![1]), Ok(false));
    assert!(changes.is_empty());
    assert_eq!(
        stage_chunk_file(&mut changes, "chunk", vec![1]),
        Err(StagingError::InvalidName("chunk".to_string()))
    );
}

#[test]
fn removals_report_the_bad_line() {
    let mut changes = ChangeSet::new();
    assert_eq!(
        stage_removals(&mut changes, "1,1\n\n  # note\nnope\n"),
        Err(StagingError::InvalidRemoval(4))
    );
}

#[test]
fn removal_then_upsert_conflicts() {
    let mut changes = ChangeSet::new();
    stage_removals(&mut changes, "  5,6  \n").unwrap();
    assert!(changes.removals.contains(&(5, 6)));
    assert_eq!(
        stage_chunk_file(&mut changes, "5,6", vec![1]),
        Err(StagingError::Conflict(5, 6))
    );
    assert!(!changes.is_empty());
}

#[test]
fn removal_lines_are_read_in_order() {
    let mut changes = ChangeSet::new();
    assert_eq!(stage_removal_lines(&mut changes, &[" 1,2 ", "", "# 9,9", "-3,4"]), Ok(()));
    assert_eq!(changes.removals.len(), 2);
    assert!(changes.removals.contains(&(1, 2)));
    assert!(changes.removals.contains(&(-3, 4)));
    assert!(!changes.removals.contains(&(9, 9)));
    assert!(changes.upserts.is_empty());

    let mut bad = ChangeSet::new();
    assert_eq!(
        stage_removal_lines(&mut bad, &["1,1", "x"]),
        Err(StagingError::InvalidRemoval(2))
    );
    let mut conflict = ChangeSet::new();
    assert_eq!(stage_chunk_file(&mut conflict, "7,7", vec![1]), Ok(true));
    assert_eq!(
        stage_removal_lines(&mut conflict, &["#", "7,7"]),
        Err(StagingError::Conflict(7, 7))
    );
}

#[test]
fn removals_file_lines_end_at_newlines() {
    let mut changes = ChangeSet::new();
    assert_eq!(stage_removals(&mut changes, "1,2\r\n3,4"), Ok(()));
    assert!(changes.removals.contains(&(1, 2)));
    assert!(changes.removals.contains(&(3, 4)));
    assert_eq!(changes.removals.len(), 2);
}

#[test]
fn removal_lines_are_trimmed_of_unicode_whitespace() {
    let mut changes = ChangeSet::new();
    assert_eq!(stage_removals(&mut changes, "\u{a0}1,2\u{3000}\n\t-5,6 \r\n"), Ok(()));
    assert!(changes.removals.contains(&(1, 2)));
    assert!(changes.removals.contains(&(-5, 6)));
    assert_eq!(changes.removals.len(), 2);
}

#[test]
fn formatted_coordinates_parse_back() {
    for c in [(0, 0), (-4, 7), (i32::MIN, i32::MAX), (1234, -98765), (10, -10)] {
        assert_eq!(parse_coords(&format!("{},{}", c.0, c.1)), Some(c));
    }
}
