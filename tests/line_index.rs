use gfa_loader::error::LoadError;
use gfa_loader::mmap_gfa::{second_field_of, LineIndices, LineType, MmapGFA};
use gfa_loader::record::{check_parser_safe, check_steps_well_formed, parse_decimal, Record};

const SAMPLE: &[u8] = b"H\tVN:Z:1.0\nS\t1\tACGT\nS\t2\tGG\nL\t1\t+\t2\t-\t0M\nC\t1\t+\t2\t+\t0\t0M\nP\tp1\t1+,2-\t*\nX\tunknown\n";

#[test]
fn build_index_lists_each_record_type_in_file_order() {
    let gfa = MmapGFA::new(SAMPLE);
    let idx = gfa.build_index();
    assert_eq!(idx.segments, vec![11, 20]);
    assert_eq!(idx.links, vec![27]);
    assert_eq!(idx.paths, vec![55]);
}

#[test]
fn build_index_twice_gives_identical_lists() {
    let gfa = MmapGFA::new(SAMPLE);
    let a = gfa.build_index();
    let b = gfa.build_index();
    assert_eq!(a, b);
}

#[test]
fn build_index_of_empty_file_is_empty() {
    let gfa = MmapGFA::new(b"");
    let idx = gfa.build_index();
    assert_eq!(idx, LineIndices { segments: vec![], links: vec![], paths: vec![] });
}

#[test]
fn build_index_ignores_markers_inside_lines() {
    let gfa = MmapGFA::new(b"H\tS\n\nS\t1\tA");
    let idx = gfa.build_index();
    assert_eq!(idx.segments, vec![5]);
    assert!(idx.links.is_empty());
}

#[test]
fn build_index_leaves_the_cursor() {
    let mut gfa = MmapGFA::new(SAMPLE);
    assert_eq!(gfa.next_line(), b"H\tVN:Z:1.0\n");
    let _ = gfa.build_index();
    assert_eq!(gfa.current_line(), b"H\tVN:Z:1.0\n");
    assert_eq!(gfa.next_line(), b"S\t1\tACGT\n");
}

#[test]
fn next_line_reads_until_end() {
    let mut gfa = MmapGFA::new(b"S\t1\tA\nS\t2\tC");
    assert_eq!(gfa.next_line(), b"S\t1\tA\n");
    assert_eq!(gfa.next_line(), b"S\t2\tC");
    assert_eq!(gfa.next_line(), b"");
}

#[test]
fn read_line_at_reads_the_line_at_an_offset() {
    let mut gfa = MmapGFA::new(SAMPLE);
    assert_eq!(gfa.read_line_at(20).unwrap(), b"S\t2\tGG\n");
    assert_eq!(gfa.read_line_at(22).unwrap(), b"2\tGG\n");
    assert_eq!(gfa.read_line_at(SAMPLE.len()).unwrap(), b"");
}

#[test]
fn read_line_at_past_the_end_fails() {
    let mut gfa = MmapGFA::new(b"S\t1\tA\n");
    assert_eq!(gfa.read_line_at(7), Err(LoadError::OffsetOutOfBounds { offset: 7 }));
}

#[test]
fn current_line_name_is_the_second_field() {
    let mut gfa = MmapGFA::new(b"P\tname\t1+\t*\nS\n");
    gfa.next_line();
    assert_eq!(gfa.current_line_name(), Some(&b"name"[..]));
    gfa.next_line();
    assert_eq!(gfa.current_line_name(), None);
}

#[test]
fn second_field_runs_to_the_end_without_a_third_tab() {
    assert_eq!(second_field_of(b"P\tp1\n"), Some(&b"p1\n"[..]));
    assert_eq!(second_field_of(b"\t\t"), Some(&b""[..]));
    assert_eq!(second_field_of(b""), None);
}

#[test]
fn parse_current_line_on_no_line_fails() {
    let gfa = MmapGFA::new(b"S\t1\tA\n");
    assert_eq!(gfa.parse_current_line(), Err(LoadError::EmptyLine { offset: 0 }));
}

#[test]
fn parse_current_line_gives_typed_records() {
    let mut gfa = MmapGFA::new(SAMPLE);
    gfa.read_line_at(11).unwrap();
    assert_eq!(
        gfa.parse_current_line(),
        Ok(Record::Segment { name: 1, sequence: b"ACGT".to_vec() })
    );
    gfa.read_line_at(27).unwrap();
    assert_eq!(
        gfa.parse_current_line(),
        Ok(Record::Link { from_segment: 1, from_reverse: false, to_segment: 2, to_reverse: true })
    );
    gfa.read_line_at(55).unwrap();
    assert_eq!(
        gfa.parse_current_line(),
        Ok(Record::Path { path_name: b"p1".to_vec(), segment_names: b"1+,2-".to_vec() })
    );
    gfa.read_line_at(0).unwrap();
    assert_eq!(gfa.parse_current_line(), Ok(Record::Header));
}

#[test]
fn parse_current_line_refused_by_the_parser() {
    let mut gfa = MmapGFA::new(b"H\nL\t1\t+\t2\n");
    gfa.read_line_at(2).unwrap();
    match gfa.parse_current_line() {
        Err(LoadError::Parse { offset, complaint }) => {
            assert_eq!(offset, 2);
            assert!(!complaint.is_empty());
        }
        other => panic!("unexpected {:?}", other),
    }
}

#[test]
fn parse_current_line_refuses_lines_the_parser_cannot_take() {
    let mut gfa = MmapGFA::new(b"H\tVN:B:\nP\tp\t1+\t4294967296M\nH\t12:Z:x\n");
    gfa.read_line_at(0).unwrap();
    assert_eq!(gfa.parse_current_line(), Err(LoadError::Unsupported { offset: 0 }));
    gfa.read_line_at(8).unwrap();
    assert_eq!(gfa.parse_current_line(), Err(LoadError::Unsupported { offset: 8 }));
    gfa.read_line_at(27).unwrap();
    assert_eq!(gfa.parse_current_line(), Err(LoadError::Unsupported { offset: 27 }));
}

#[test]
fn check_parser_safe_admits_ordinary_lines() {
    assert!(check_parser_safe(b"H\tVN:Z:1.0\n"));
    assert!(check_parser_safe(b"H\tVN:B:f1.5\n"));
    assert!(check_parser_safe(b"P\tp\t1+,2-\t4294967295M,*\n"));
    assert!(check_parser_safe(b"P\tp\t99999999999+\t*\n"));
    assert!(check_parser_safe(b"L\t1\t+\t2\t+\t99999999999M\n"));
    assert!(!check_parser_safe(b"  P\tp\t1+\t10000000000M\n"));
    assert!(!check_parser_safe(b"H\tVN:B: \n"));
}

#[test]
fn line_type_markers() {
    assert_eq!(LineType::Segment.marker(), b'S');
    assert_eq!(LineType::Link.marker(), b'L');
    assert_eq!(LineType::Path.marker(), b'P');
}

#[test]
fn parse_decimal_reads_unsigned_integers() {
    assert_eq!(parse_decimal(b"0"), Some(0));
    assert_eq!(parse_decimal(b"42"), Some(42));
    assert_eq!(parse_decimal(b"+7"), Some(7));
    assert_eq!(parse_decimal(b"18446744073709551615"), Some(18446744073709551615));
    assert_eq!(parse_decimal(b"18446744073709551616"), None);
    assert_eq!(parse_decimal(b""), None);
    assert_eq!(parse_decimal(b"+"), None);
    assert_eq!(parse_decimal(b"-1"), None);
    assert_eq!(parse_decimal(b"1\n"), None);
}

#[test]
fn check_steps_well_formed_finds_bad_steps() {
    assert!(check_steps_well_formed(&b"1+,2-,3+".to_vec()));
    assert!(check_steps_well_formed(&b"".to_vec()));
    assert!(check_steps_well_formed(&b"1+,,2-".to_vec()));
    assert!(!check_steps_well_formed(&b"1+,2".to_vec()));
    assert!(!check_steps_well_formed(&b"1,2+".to_vec()));
    assert!(!check_steps_well_formed(&b"1+,x+".to_vec()));
    assert!(!check_steps_well_formed(&b"-".to_vec()));
}

#[test]
fn seek_next_stops_at_the_next_line_of_a_type() {
    let mut gfa = MmapGFA::new(SAMPLE);
    assert!(gfa.seek_next(LineType::Link));
    assert_eq!(gfa.current_line(), b"L\t1\t+\t2\t-\t0M\n");
    assert!(gfa.seek_next(LineType::Path));
    assert_eq!(gfa.current_line(), b"P\tp1\t1+,2-\t*\n");
    assert!(!gfa.seek_next(LineType::Segment));
    assert_eq!(gfa.current_line(), b"");
}
