use project_tails::act::{ActError, ActFile};

const HEADER: &str = "NORMAL\nEmeraldHillZone.png\nEmeraldHillZone/Block\nEmeraldHillZone/Background/\n";

fn level(entities: &str, count: &str, size: &str, records: &str) -> String {
    format!("v1\nAct One\n{}E\n{}{}\n{}\n{}", entities, HEADER, count, size, records)
}

fn sample() -> String {
    level(
        "100 300 BEEBADNIK\n100.5 400 BEEBADNIK red  fast\n",
        "3",
        "3 2",
        "0 0 5 0\n256 0 7 1\n128 128 2\n",
    )
}

#[test]
fn parses_sample_level() {
    let a = ActFile::parse(&sample()).unwrap();
    assert_eq!(a.version, "v1");
    assert_eq!(a.name, "Act One");
    assert_eq!(a.width, 3);
    assert_eq!(a.tiles, vec![Some((5, 0)), None, Some((7, 1)), None, Some((2, 0)), None]);
    assert_eq!(a.entities.len(), 2);
    assert_eq!(a.entities[1].x, "100.5");
    assert_eq!(a.entities[1].kind, "BEEBADNIK");
    assert_eq!(a.entities[1].flags, vec!["red".to_string(), "fast".to_string()]);
    assert!(a.entities[0].flags.is_empty());
}

#[test]
fn writes_level_text() {
    let a = ActFile::parse(&sample()).unwrap();
    let expected = format!(
        "v1\nAct One\n100 300 BEEBADNIK \n100.5 400 BEEBADNIK red fast \nE\n{}3\n3 2\n0 0 5 0\n256 0 7 1\n128 128 2 0\n",
        HEADER
    );
    assert_eq!(a.to_text(), expected);
}

fn same_level(a: &ActFile, b: &ActFile) -> bool {
    a.version == b.version
        && a.name == b.name
        && a.width == b.width
        && a.tiles == b.tiles
        && a.entities.len() == b.entities.len()
        && a.entities.iter().zip(b.entities.iter()).all(|(x, y)| {
            x.x == y.x && x.y == y.y && x.kind == y.kind && x.flags == y.flags
        })
}

#[test]
fn round_trip_keeps_level() {
    let a = ActFile::parse(&sample()).unwrap();
    let b = ActFile::parse(&a.to_text()).unwrap();
    assert!(same_level(&a, &b));
    // a file with CRLF endings, no final line ending and a repeated cell
    let text = level("1 2 K\r\n", "3", "2 1", "0 0 1 0\r\n0 0 4 2\r\n128 0 9 0");
    let c = ActFile::parse(&text).unwrap();
    assert_eq!(c.tiles, vec![Some((4, 2)), Some((9, 0))]);
    let d = ActFile::parse(&c.to_text()).unwrap();
    assert!(same_level(&c, &d));
}

#[test]
fn round_trip_of_zero_width_level() {
    let a = ActFile::parse(&level("", "0", "0 5", "")).unwrap();
    assert_eq!(a.width, 0);
    assert!(a.tiles.is_empty());
    let b = ActFile::parse(&a.to_text()).unwrap();
    assert!(same_level(&a, &b));
}

#[test]
fn misaligned_record_is_rejected() {
    let r = ActFile::parse(&level("", "1", "2 2", "130 0 1 0\n"));
    assert_eq!(r.err(), Some(ActError::InvalidTilePosition(130, 0)));
    let r = ActFile::parse(&level("", "1", "2 2", "0 64 1 0\n"));
    assert_eq!(r.err(), Some(ActError::InvalidTilePosition(0, 64)));
}

#[test]
fn out_of_range_record_is_rejected() {
    let r = ActFile::parse(&level("", "1", "2 2", "256 0 1 0\n"));
    assert_eq!(r.err(), Some(ActError::OutOfRangeTilePosition(2, 0)));
    let r = ActFile::parse(&level("", "1", "2 2", "0 256 1 0\n"));
    assert_eq!(r.err(), Some(ActError::OutOfRangeTilePosition(0, 2)));
}

#[test]
fn header_errors() {
    assert_eq!(ActFile::parse("").err(), Some(ActError::MissingVersion));
    assert_eq!(ActFile::parse("v1\n").err(), Some(ActError::MissingName));
    assert_eq!(ActFile::parse("v1\nname\n1 2\nE\n").err(), Some(ActError::MissingEntityKind));
    assert_eq!(ActFile::parse("v1\nname\n   \nE\n").err(), Some(ActError::MissingEntityX));
    assert_eq!(ActFile::parse("v1\nname\n1\nE\n").err(), Some(ActError::MissingEntityY));
    assert_eq!(ActFile::parse("v1\nname\n1 2 K\n").err(), Some(ActError::UnexpectedMetadata));
    assert_eq!(ActFile::parse("v1\nname\nE\nNORMAL\nx\n").err(), Some(ActError::UnexpectedMetadata));
    let no_count = format!("v1\nname\nE\n{}", HEADER);
    assert_eq!(ActFile::parse(&no_count).err(), Some(ActError::MissingTileCount));
    let no_size = format!("v1\nname\nE\n{}0\n", HEADER);
    assert_eq!(ActFile::parse(&no_size).err(), Some(ActError::MissingSize));
}

#[test]
fn size_and_number_errors() {
    assert_eq!(ActFile::parse(&level("", "x", "1 1", "")).err(), Some(ActError::BadNumber));
    assert_eq!(ActFile::parse(&level("", "0", "", "")).err(), Some(ActError::MissingWidth));
    assert_eq!(ActFile::parse(&level("", "0", "1", "")).err(), Some(ActError::MissingHeight));
    assert_eq!(ActFile::parse(&level("", "0", "1 2 3", "")).err(), Some(ActError::TrailingSizeData));
    assert_eq!(ActFile::parse(&level("", "0", "-1 2", "")).err(), Some(ActError::BadNumber));
    assert_eq!(
        ActFile::parse(&level("", "0", "18446744073709551616 1", "")).err(),
        Some(ActError::BadNumber)
    );
    assert_eq!(
        ActFile::parse(&level("", "0", "4294967296 4294967296", "")).err(),
        Some(ActError::GridTooLarge)
    );
    assert_eq!(ActFile::parse(&level("", "0", "+ 1", "")).err(), Some(ActError::BadNumber));
    // a leading plus sign is accepted
    assert_eq!(ActFile::parse(&level("", "+0", "+1 +1", "")).unwrap().width, 1);
}

#[test]
fn record_errors() {
    assert_eq!(ActFile::parse(&level("", "1", "1 1", "\n")).err(), Some(ActError::MissingX));
    assert_eq!(ActFile::parse(&level("", "1", "1 1", "0\n")).err(), Some(ActError::MissingY));
    assert_eq!(ActFile::parse(&level("", "1", "1 1", "0 0\n")).err(), Some(ActError::MissingIndex));
    assert_eq!(ActFile::parse(&level("", "1", "1 1", "0 0 a\n")).err(), Some(ActError::BadNumber));
    assert_eq!(
        ActFile::parse(&level("", "1", "1 1", "0 0 1 4294967296\n")).err(),
        Some(ActError::BadNumber)
    );
    assert_eq!(
        ActFile::parse(&level("", "1", "1 1", "0 0 1 0 9\n")).err(),
        Some(ActError::TrailingTileData)
    );
    assert_eq!(
        ActFile::parse(&level("", "1", "1 1", "0 0 1 0\nextra\n")).err(),
        Some(ActError::TrailingLines)
    );
}

#[test]
fn fewer_records_than_count_is_accepted() {
    let a = ActFile::parse(&level("", "5", "2 1", "128 0 3 0\n")).unwrap();
    assert_eq!(a.tiles, vec![None, Some((3, 0))]);
}

#[test]
fn writes_empty_level() {
    let a = ActFile::parse(&level("", "0", "2 1", "")).unwrap();
    assert_eq!(a.tiles, vec![None, None]);
    assert_eq!(a.to_text(), format!("v1\nAct One\nE\n{}0\n2 1\n", HEADER));
}
