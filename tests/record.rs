use lcov::{ParseRecordError, Record, RecordKind};

fn check_parse_ok(s: &str, rec: &Record) {
    assert_eq!(s.parse::<Record>().unwrap(), *rec);
    assert_eq!(format!("{}\n", s).parse::<Record>().unwrap(), *rec);
    assert_eq!(format!("{}\r\n", s).parse::<Record>().unwrap(), *rec);
    assert_eq!(rec.to_string(), s);
}

fn check_test_name(s: &str) {
    check_parse_ok(&format!("TN:{}", s), &Record::TestName { name: s.into() });
}

fn check_source_file(s: &str) {
    check_parse_ok(&format!("SF:{}", s), &Record::SourceFile { path: s.into() });
}

fn check_function_name(name: &str, line: u32) {
    check_parse_ok(
        &format!("FN:{},{}", line, name),
        &Record::FunctionName { name: name.into(), start_line: line },
    );
}

fn check_function_data(name: &str, count: u64) {
    check_parse_ok(&format!("FNDA:{},{}", count, name), &Record::FunctionData { name: name.into(), count });
}

fn check_functions_found_hit(n: u32) {
    check_parse_ok(&format!("FNF:{}", n), &Record::FunctionsFound { found: n });
    check_parse_ok(&format!("FNH:{}", n), &Record::FunctionsHit { hit: n });
}

fn check_branch_data(line: u32, block: u32, branch: u32, taken: Option<u64>) {
    let s = if let Some(taken) = taken {
        format!("BRDA:{},{},{},{}", line, block, branch, taken)
    } else {
        format!("BRDA:{},{},{},-", line, block, branch)
    };
    check_parse_ok(&s, &Record::BranchData { line, block, branch, taken });
}

fn check_branches_found_hit(n: u32) {
    check_parse_ok(&format!("BRF:{}", n), &Record::BranchesFound { found: n });
    check_parse_ok(&format!("BRH:{}", n), &Record::BranchesHit { hit: n });
}

fn check_line_data(line: u32, count: u64, checksum: Option<String>) {
    let s = if let Some(ref checksum) = checksum {
        format!("DA:{},{},{}", line, count, checksum)
    } else {
        format!("DA:{},{}", line, count)
    };
    check_parse_ok(&s, &Record::LineData { line, count, checksum });
}

fn check_lines_found_hit(n: u32) {
    check_parse_ok(&format!("LF:{}", n), &Record::LinesFound { found: n });
    check_parse_ok(&format!("LH:{}", n), &Record::LinesHit { hit: n });
}

#[test]
fn tests_test_name() {
    check_test_name("foo");
    check_test_name("foo:bar");
    check_test_name("foo:bar,baz");
}

#[test]
fn tests_source_file() {
    check_source_file("/foo/bar/baz");
    check_source_file("C:/foo/bar/baz");
    check_source_file(r"C:\foo\bar\baz");
}

#[test]
fn tests_function_name() {
    check_function_name("hogehoge", 3);
    check_function_name("3,5", 1);
}

#[test]
fn tests_function_data() {
    check_function_data("hogehoge", 12345);
    check_function_data("hoge,hoge", 98765);
}

#[test]
fn tests_functions_found_hit() {
    check_functions_found_hit(0);
    check_functions_found_hit(100);
    check_functions_found_hit(u32::MAX);
}

#[test]
fn tests_branch_data() {
    check_branch_data(10, 20, 30, Some(40));
    check_branch_data(100, 200, 300, None);
}

#[test]
fn tests_branches_found_hit() {
    check_branches_found_hit(0);
    check_branches_found_hit(100);
    check_branches_found_hit(u32::MAX);
}

#[test]
fn tests_line_data() {
    check_line_data(10, 20, None);
    check_line_data(u32::MAX, u64::MAX, Some("hogehoge".into()));
    check_line_data(u32::MAX, u64::MAX, Some("foo,bar,baz".into()));
}

#[test]
fn tests_lines_found_hit() {
    check_lines_found_hit(0);
    check_lines_found_hit(100);
    check_lines_found_hit(u32::MAX);
}

#[test]
fn tests_end_of_record() {
    check_parse_ok("end_of_record", &Record::EndOfRecord);
}

#[test]
fn parse_errors() {
    assert_eq!(Record::parse("FNDA:3"), Err(ParseRecordError::FieldNotFound("name")));
    assert_eq!(Record::parse("FN:3"), Err(ParseRecordError::FieldNotFound("name")));
    assert_eq!(Record::parse("LF:1,2"), Err(ParseRecordError::TooManyFields));
    assert_eq!(Record::parse("LH:foo"), Err(ParseRecordError::ParseIntError("hit")));
    assert_eq!(Record::parse("FOO:1,2"), Err(ParseRecordError::UnknownRecord));
    assert_eq!(Record::parse(""), Err(ParseRecordError::UnknownRecord));
    assert_eq!(Record::parse("BRDA:1,2"), Err(ParseRecordError::FieldNotFound("branch")));
    assert_eq!(Record::parse("BRDA:1,2,3"), Err(ParseRecordError::FieldNotFound("taken")));
    assert_eq!(Record::parse("BRDA:1,2,3,x"), Err(ParseRecordError::ParseIntError("taken")));
    assert_eq!(Record::parse("BRDA:1,2,3,4,5"), Err(ParseRecordError::TooManyFields));
    assert_eq!(Record::parse("DA:1"), Err(ParseRecordError::FieldNotFound("count")));
    assert_eq!(Record::parse("DA:4294967296,1"), Err(ParseRecordError::ParseIntError("line")));
    assert_eq!(Record::parse("FNDA:18446744073709551616,f"), Err(ParseRecordError::ParseIntError("count")));
}

#[test]
fn parse_number_forms() {
    assert_eq!(Record::parse("LF:+7"), Ok(Record::LinesFound { found: 7 }));
    assert_eq!(Record::parse("LF:007"), Ok(Record::LinesFound { found: 7 }));
    assert_eq!(Record::parse("LF:+"), Err(ParseRecordError::ParseIntError("found")));
    assert_eq!(Record::parse("LF:"), Err(ParseRecordError::ParseIntError("found")));
    assert_eq!(Record::parse("LF:-1"), Err(ParseRecordError::ParseIntError("found")));
    assert_eq!(
        Record::parse("FNDA:18446744073709551615,f"),
        Ok(Record::FunctionData { name: "f".into(), count: u64::MAX })
    );
}

#[test]
fn checksum_dash_is_absent() {
    assert_eq!(Record::parse("DA:4,1,-"), Ok(Record::LineData { line: 4, count: 1, checksum: None }));
    assert_eq!(Record::parse("DA:4,1,"), Ok(Record::LineData { line: 4, count: 1, checksum: Some("".into()) }));
}

#[test]
fn end_of_record_ignores_its_body() {
    assert_eq!(Record::parse("end_of_record:junk"), Ok(Record::EndOfRecord));
    assert_eq!(Record::parse("TN"), Ok(Record::TestName { name: "".into() }));
}

#[test]
fn record_kinds() {
    assert_eq!(Record::LinesHit { hit: 32 }.kind(), RecordKind::LinesHit);
    assert_eq!(RecordKind::TestName.as_str(), "TN");
    assert_eq!(RecordKind::EndOfRecord.as_str(), "end_of_record");
    assert_eq!("BRDA".parse::<RecordKind>(), Ok(RecordKind::BranchData));
    assert!("BRDAX".parse::<RecordKind>().is_err());
    assert_eq!(RecordKind::from_tag("FNH"), Ok(RecordKind::FunctionsHit));
}
