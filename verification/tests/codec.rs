use vindicator::fuser::comb_sum;
use vindicator::fuser::fuse_scored;
use vindicator::parse_from_trec;
use vindicator::score;
use vindicator::trec::write_all;
use vindicator::trec::ParseError;
use vindicator::trec::TrecEntry;
use vindicator::trec::TrecField;
use vindicator::Score;

fn parse_str(s: &str) -> Result<Vec<TrecEntry>, ParseError> {
    parse_from_trec(&s.as_bytes().to_vec())
}

#[test]
fn test_parse_single_line() {
    let out = parse_str("q1 0 docA 0 0.9 run1").unwrap();
    assert_eq!(out.len(), 1);
    let e = &out[0];
    assert_eq!(e.qid, b"q1".to_vec());
    assert_eq!(e.docno, b"docA".to_vec());
    assert_eq!(e.rank, 0);
    assert_eq!(e.score, Score::from_micros(900_000));
    assert_eq!(e.runid, b"run1".to_vec());
}

#[test]
fn test_write_reproduces_line() {
    let out = parse_str("q1 0 docA 0 0.9 run1").unwrap();
    let line = vindicator::trec::write(&out[0]);
    assert_eq!(line, b"q1 0 docA 0 0.9 run1\n".to_vec());
}

#[test]
fn test_round_trip_many_records() {
    let text = "q1 0 docA 0 0.9 run1\nq1 0 docB 1 -3.25 run1\nq2 0 docC 17 40 run2\n";
    let records = parse_str(text).unwrap();
    assert_eq!(records.len(), 3);
    let written = write_all(&records);
    assert_eq!(written, text.as_bytes().to_vec());
    let reparsed = parse_from_trec(&written).unwrap();
    assert_eq!(reparsed, records);
}

#[test]
fn test_parse_normalizes_noncanonical_literals() {
    // "0.90" and "+7" denote the same values as "0.9" and "7"; parsing
    // keeps the value, and writing emits the shortest literal.
    let records = parse_str("q1 0 docA +7 0.90 run1").unwrap();
    assert_eq!(records[0].rank, 7);
    assert_eq!(records[0].score, Score::from_micros(900_000));
    assert_eq!(vindicator::trec::write(&records[0]), b"q1 0 docA 7 0.9 run1\n".to_vec());
}

#[test]
fn test_parse_whitespace_runs() {
    let out = parse_str("  q1\t0  docA\t\t3 12.5   run1  ").unwrap();
    assert_eq!(out.len(), 1);
    assert_eq!(out[0].rank, 3);
    assert_eq!(out[0].score, Score::from_micros(12_500_000));
}

#[test]
fn test_parse_empty_input() {
    assert_eq!(parse_str("").unwrap(), vec![]);
}

#[test]
fn test_blank_line_is_missing_qid() {
    let err = parse_str("q1 0 docA 0 0.9 run1\n\nq2 0 docB 1 0.5 run1").unwrap_err();
    assert_eq!(err, ParseError::Eol(TrecField::Qid));
}

#[test]
fn test_missing_field_named() {
    assert_eq!(parse_str("q1").unwrap_err(), ParseError::Eol(TrecField::Reserved));
    assert_eq!(parse_str("q1 0").unwrap_err(), ParseError::Eol(TrecField::Docno));
    assert_eq!(parse_str("q1 0 docA").unwrap_err(), ParseError::Eol(TrecField::Rank));
    assert_eq!(parse_str("q1 0 docA 4").unwrap_err(), ParseError::Eol(TrecField::Score));
    assert_eq!(parse_str("q1 0 docA 4 0.9").unwrap_err(), ParseError::Eol(TrecField::Runid));
}

#[test]
fn test_nan_score_rejected() {
    let err = parse_str("q1 0 docA 0 nan run1").unwrap_err();
    assert_eq!(err, ParseError::InvalidScore(b"nan".to_vec()));
    let err = parse_str("q1 0 docA 0 NaN run1").unwrap_err();
    assert_eq!(err, ParseError::InvalidScore(b"NaN".to_vec()));
}

#[test]
fn test_infinite_score_rejected() {
    let err = parse_str("q1 0 docA 0 inf run1").unwrap_err();
    assert_eq!(err, ParseError::InvalidScore(b"inf".to_vec()));
}

#[test]
fn test_exponent_score_rejected() {
    let err = parse_str("q1 0 docA 0 1e5 run1").unwrap_err();
    assert_eq!(err, ParseError::InvalidScore(b"1e5".to_vec()));
}

#[test]
fn test_invalid_rank_keeps_text() {
    let err = parse_str("q1 0 docA -1 0.9 run1").unwrap_err();
    assert_eq!(err, ParseError::InvalidRank(b"-1".to_vec()));
    let err = parse_str("q1 0 docA 4294967296 0.9 run1").unwrap_err();
    assert_eq!(err, ParseError::InvalidRank(b"4294967296".to_vec()));
}

#[test]
fn test_error_descriptions() {
    assert_eq!(ParseError::Eol(TrecField::Rank).description(), "unexpected end of line");
    assert_eq!(ParseError::InvalidRank(b"x".to_vec()).description(), "invalid rank");
    assert_eq!(ParseError::InvalidScore(b"x".to_vec()).description(), "invalid score");
}

#[test]
fn test_reserved_field_not_validated() {
    // The second field is read and discarded, whatever it holds.
    let out = parse_str("q1 zz docA 0 1 run1").unwrap();
    assert_eq!(out[0].docno, b"docA".to_vec());
}

#[test]
fn test_negative_fraction_round_trip() {
    let e = TrecEntry {
        qid: b"q".to_vec(),
        docno: b"d".to_vec(),
        rank: 2,
        score: Score::from_micros(-123_450),
        runid: b"r".to_vec(),
    };
    let line = vindicator::trec::write(&e);
    assert_eq!(line, b"q 0 d 2 -0.12345 r\n".to_vec());
    let back = parse_from_trec(&line).unwrap();
    assert_eq!(back, vec![e]);
}

#[test]
fn test_fused_output_serializes() {
    let input = parse_str("q1 0 a 0 2.5 r\nq1 0 b 1 4 r\nq1 0 a 2 1 r").unwrap();
    let fused = fuse_scored(&input, comb_sum);
    let lines: Vec<TrecEntry> = fused
        .iter()
        .enumerate()
        .map(|(i, e)| TrecEntry {
            qid: b"fusion".to_vec(),
            docno: e.id.clone(),
            rank: i as u32,
            score: e.score,
            runid: b"test".to_vec(),
        })
        .collect();
    let text = write_all(&lines);
    assert_eq!(text, b"fusion 0 b 0 4 test\nfusion 0 a 1 3.5 test\n".to_vec());
}

#[test]
fn test_score_factory_whole_points() {
    assert_eq!(score(2).raw(), 2 * vindicator::SCALE);
}

#[test]
fn test_write_all_empty() {
    assert_eq!(write_all(&vec![]), Vec::<u8>::new());
}

#[test]
fn test_parse_final_newline_optional() {
    let a = parse_str("q1 0 d 0 1 r\n").unwrap();
    let b = parse_str("q1 0 d 0 1 r").unwrap();
    assert_eq!(a, b);
}
