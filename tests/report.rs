use lcov::{Filter, MergeError, ParseRecordError, Range, ReadError, Reader, Record, RecordKind, Report};

fn records(text: &str) -> Vec<Result<Record, ReadError>> {
    text.lines()
        .enumerate()
        .map(|(i, line)| Record::parse(line).map_err(|e| ReadError::ParseRecord(i as u32 + 1, e)))
        .collect()
}

fn report(text: &str) -> Report {
    Report::from_reader(records(text)).expect("valid report")
}

fn to_text(report: Report) -> String {
    report.into_records().iter().map(|r| format!("{}\n", r.to_string())).collect()
}

const SAMPLE: &str = "\
TN:test_name
SF:/path/to/source/file.rs
FN:3,main
FN:10,helper
FNDA:1,main
FNDA:0,helper
FNF:2
FNH:1
BRDA:4,0,0,1
BRDA:4,0,1,-
BRF:2
BRH:1
DA:1,2
DA:3,0
DA:5,6
LF:3
LH:2
end_of_record
";

#[test]
fn round_trip_is_exact() {
    let rep = report(SAMPLE);
    assert_eq!(to_text(rep.clone()), SAMPLE);
    let again = report(&to_text(rep.clone()));
    assert_eq!(again, rep);
    let first: Vec<Record> = rep.clone().into_records();
    let second: Vec<Record> = again.into_records();
    assert_eq!(first, second);
}

#[test]
fn summaries_are_recomputed() {
    let input = "\
TN:
SF:a.c
FNDA:5,late
FN:9,late
FN:2,early
DA:7,0
DA:2,3
LF:100
LH:100
end_of_record
";
    let expected = "\
TN:
SF:a.c
FN:2,early
FN:9,late
FNDA:0,early
FNDA:5,late
FNF:2
FNH:1
DA:2,3
DA:7,0
LF:2
LH:1
end_of_record
";
    assert_eq!(to_text(report(input)), expected);
}

#[test]
fn function_without_start_line_is_kept() {
    let input = "TN:\nSF:a.c\nFNDA:2,anon\nFN:4,named\nend_of_record\n";
    let expected = "TN:\nSF:a.c\nFN:4,named\nFNDA:2,anon\nFNDA:0,named\nFNF:2\nFNH:1\nend_of_record\n";
    assert_eq!(to_text(report(input)), expected);
}

#[test]
fn sections_are_sorted_and_merged() {
    let input = "\
TN:t
SF:b.c
DA:1,1
end_of_record
TN:t
SF:a.c
DA:1,1
end_of_record
TN:t
SF:b.c
DA:1,2
DA:2,0
end_of_record
";
    let expected = "\
TN:t
SF:a.c
DA:1,1
LF:1
LH:1
end_of_record
TN:t
SF:b.c
DA:1,3
DA:2,0
LF:2
LH:1
end_of_record
";
    assert_eq!(to_text(report(input)), expected);
}

#[test]
fn unmatched_function_line_fails() {
    let mut rep = report("TN:\nSF:foo.c\nFN:3,foo\nend_of_record\n");
    let res = rep.merge(records("TN:\nSF:foo.c\nFN:4,foo\nend_of_record\n"));
    assert_eq!(res, Err(MergeError::UnmatchedFunctionLine));
}

#[test]
fn unmatched_checksum_fails() {
    let mut rep = report("TN:\nSF:foo.c\nDA:4,1,cksA\nend_of_record\n");
    let res = rep.merge(records("TN:\nSF:foo.c\nDA:4,4,cksB\nend_of_record\n"));
    assert_eq!(res, Err(MergeError::UnmatchedChecksum));
}

#[test]
fn matching_checksums_add_counts() {
    let mut rep = report("TN:\nSF:foo.c\nDA:4,1,cksA\nend_of_record\n");
    rep.merge(records("TN:\nSF:foo.c\nDA:4,4,cksA\nend_of_record\n")).unwrap();
    assert_eq!(to_text(rep), "TN:\nSF:foo.c\nDA:4,5,cksA\nLF:1\nLH:1\nend_of_record\n");
}

#[test]
fn lossy_merge_prefers_incoming() {
    let mut rep = report("TN:\nSF:foo.c\nFN:3,foo\nDA:4,1,cksA\nend_of_record\n");
    rep.merge_lossy(records("TN:\nSF:foo.c\nFN:4,foo\nDA:4,4,cksB\nend_of_record\n")).unwrap();
    assert_eq!(
        to_text(rep),
        "TN:\nSF:foo.c\nFN:4,foo\nFNDA:0,foo\nFNF:1\nFNH:0\nDA:4,5,cksB\nLF:1\nLH:1\nend_of_record\n"
    );
}

#[test]
fn trailing_test_name_gives_no_section() {
    let rep = report("TN:foo\n");
    assert_eq!(rep.into_records(), vec![]);
}

#[test]
fn repeated_test_names_keep_the_last() {
    let rep = report("TN:first\nTN:second\nSF:a.c\nDA:1,1\nend_of_record\nTN:extra\n");
    assert_eq!(to_text(rep), "TN:second\nSF:a.c\nDA:1,1\nLF:1\nLH:1\nend_of_record\n");
}

#[test]
fn empty_section_is_dropped() {
    let rep = report("TN:\nSF:a.c\nLF:0\nLH:0\nend_of_record\n");
    assert_eq!(rep.into_records(), vec![]);
}

#[test]
fn structure_errors() {
    assert_eq!(
        Report::from_reader(records("TN:test_name\nSF:/usr/include/stdio.h\nTN:next_test\n")),
        Err(MergeError::UnexpectedRecord(RecordKind::TestName))
    );
    assert_eq!(
        Report::from_reader(records("TN:test_name\nSF:/usr/include/stdio.h\n")),
        Err(MergeError::UnexpectedEof)
    );
    assert_eq!(
        Report::from_reader(records("TN:x\nDA:1,1\n")),
        Err(MergeError::UnexpectedRecord(RecordKind::LineData))
    );
    assert_eq!(
        Report::from_reader(records("SF:a\nSF:b\n")),
        Err(MergeError::UnexpectedRecord(RecordKind::SourceFile))
    );
    assert_eq!(
        Report::from_reader(records("FOO:1,2,3\n")),
        Err(MergeError::Read(ReadError::ParseRecord(1, ParseRecordError::UnknownRecord)))
    );
}

#[test]
fn partial_progress_stays_merged() {
    let mut rep = Report::new();
    let res = rep.merge(records("SF:a.c\nDA:1,1\nend_of_record\nSF:b.c\nDA:2,1\nbogus\n"));
    assert!(matches!(res, Err(MergeError::Read(_))));
    assert_eq!(
        to_text(rep),
        "TN:\nSF:a.c\nDA:1,1\nLF:1\nLH:1\nend_of_record\nTN:\nSF:b.c\nDA:2,1\nLF:1\nLH:1\nend_of_record\n"
    );
}

#[test]
fn branch_taken_accumulates() {
    let mut rep = report("TN:\nSF:a.c\nBRDA:1,0,0,-\nBRDA:2,0,0,-\nend_of_record\n");
    rep.merge(records("TN:\nSF:a.c\nBRDA:1,0,0,0\nBRDA:2,0,0,-\nBRDA:1,0,1,3\nend_of_record\n")).unwrap();
    assert_eq!(
        to_text(rep),
        "TN:\nSF:a.c\nBRDA:1,0,0,0\nBRDA:1,0,1,3\nBRDA:2,0,0,-\nBRF:3\nBRH:1\nend_of_record\n"
    );
}

#[test]
fn counts_saturate() {
    let mut rep = report("TN:\nSF:a.c\nDA:1,18446744073709551615\nend_of_record\n");
    rep.merge(records("TN:\nSF:a.c\nDA:1,5\nend_of_record\n")).unwrap();
    assert_eq!(to_text(rep), "TN:\nSF:a.c\nDA:1,18446744073709551615\nLF:1\nLH:1\nend_of_record\n");
}

#[test]
fn merge_order_does_not_matter() {
    let a = "TN:\nSF:a.c\nFN:1,f\nFNDA:1,f\nDA:1,1\nend_of_record\n";
    let b = "TN:\nSF:a.c\nFNDA:2,f\nDA:2,0,x\nend_of_record\nTN:\nSF:b.c\nDA:1,1\nend_of_record\n";
    let c = "TN:t\nSF:a.c\nBRDA:1,0,0,4\nend_of_record\nTN:\nSF:a.c\nDA:1,7\nend_of_record\n";
    let mut ab = report(a);
    ab.merge(records(b)).unwrap();
    let mut ab_c = ab.clone();
    ab_c.merge(records(c)).unwrap();
    let mut bc = report(b);
    bc.merge(records(c)).unwrap();
    let mut a_bc = report(a);
    a_bc.merge(bc.into_records().into_iter().map(Ok).collect()).unwrap();
    assert_eq!(to_text(ab_c), to_text(a_bc));
    let mut ba = report(b);
    ba.merge(records(a)).unwrap();
    assert_eq!(to_text(ab), to_text(ba));
}

#[test]
fn filter_keeps_touched_lines() {
    let input = "\
TN:
SF:a.c
FN:1,first
FN:10,second
FNDA:1,first
FNDA:1,second
BRDA:3,0,0,1
BRDA:12,0,0,1
DA:3,1
DA:11,1
DA:12,0
end_of_record
TN:
SF:b.c
DA:1,1
end_of_record
";
    let mut rep = report(input);
    let mut filter = Filter::new();
    filter.insert("a.c".to_string(), vec![Range::from_half_open(11, 13)]);
    filter.apply(&mut rep);
    assert_eq!(
        to_text(rep),
        "TN:\nSF:a.c\nFN:10,second\nFNDA:1,second\nFNF:1\nFNH:1\nBRDA:12,0,0,1\nBRF:1\nBRH:1\nDA:11,1\nDA:12,0\nLF:2\nLH:1\nend_of_record\n"
    );
}

#[test]
fn empty_filter_keeps_nothing() {
    let mut rep = report(SAMPLE);
    Filter::new().apply(&mut rep);
    assert_eq!(rep.into_records(), vec![]);
}

#[test]
fn filter_drops_sections_left_empty() {
    let mut rep = report(SAMPLE);
    let mut filter = Filter::new();
    filter.insert("/path/to/source/file.rs".to_string(), vec![Range::new(2, 2)]);
    filter.apply(&mut rep);
    assert_eq!(rep.into_records(), vec![]);
    let mut rep = report(SAMPLE);
    let mut filter = Filter::new();
    filter.insert("/path/to/source/file.rs".to_string(), vec![Range::new(2, 2)]);
    filter.insert("/path/to/source/file.rs".to_string(), vec![Range::starting_at(20)]);
    filter.apply(&mut rep);
    assert_eq!(
        to_text(rep),
        "TN:test_name\nSF:/path/to/source/file.rs\nFN:10,helper\nFNDA:0,helper\nFNF:1\nFNH:0\nend_of_record\n"
    );
}

#[test]
fn reader_numbers_lines() {
    let reader = Reader::new("TN:x\r\nSF:a.c\nbad\nDA:1,2".to_string());
    let items = reader.read_all();
    assert_eq!(items.len(), 4);
    assert_eq!(items[0], Ok(Record::TestName { name: "x".into() }));
    assert_eq!(items[1], Ok(Record::SourceFile { path: "a.c".into() }));
    assert_eq!(items[2], Err(ReadError::ParseRecord(3, ParseRecordError::UnknownRecord)));
    assert_eq!(items[3], Ok(Record::LineData { line: 1, count: 2, checksum: None }));
    assert_eq!(Reader::new("TN:\n".to_string()).read_all().len(), 1);
    assert_eq!(Reader::new(String::new()).read_all().len(), 0);
    assert_eq!(Reader::new("\n\n".to_string()).read_all().len(), 2);
}

#[test]
fn merging_reports() {
    let mut a = report("TN:\nSF:foo.c\nFN:3,foo\nFNDA:1,foo\nDA:4,1,cksA\nend_of_record\n");
    let b = report("TN:\nSF:foo.c\nFNDA:2,foo\nDA:4,4,cksA\nDA:5,0\nend_of_record\nTN:t\nSF:bar.c\nDA:1,1\nend_of_record\n");
    a.merge_report(b).unwrap();
    assert_eq!(
        to_text(a),
        "TN:\nSF:foo.c\nFN:3,foo\nFNDA:3,foo\nFNF:1\nFNH:1\nDA:4,5,cksA\nDA:5,0\nLF:2\nLH:1\nend_of_record\nTN:t\nSF:bar.c\nDA:1,1\nLF:1\nLH:1\nend_of_record\n"
    );
}

#[test]
fn merging_conflicting_reports() {
    let mut a = report("TN:\nSF:foo.c\nFN:3,foo\nend_of_record\n");
    let b = report("TN:\nSF:foo.c\nFN:4,foo\nend_of_record\n");
    assert_eq!(a.clone().merge_report(b.clone()), Err(MergeError::UnmatchedFunctionLine));
    a.merge_report_lossy(b);
    assert_eq!(to_text(a), "TN:\nSF:foo.c\nFN:4,foo\nFNDA:0,foo\nFNF:1\nFNH:0\nend_of_record\n");
}
