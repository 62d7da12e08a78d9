use log_ingestor::buffered_logs::{resequence, Action, BufferedLogs, GroupedHttpLogs};
use log_ingestor::reader::{HttpLog, LogRequest, LogResult, ParseError};
use log_ingestor::reorder::Answer;

fn sample_record(host: &str, time: usize, request: &str, status: u16, bytes: usize) -> HttpLog {
    HttpLog {
        remote_host: host.to_string(),
        rfc931: "-".to_string(),
        auth_user: "apache".to_string(),
        time,
        request: LogRequest::from_str(request).unwrap(),
        status,
        bytes,
    }
}

fn sample_source() -> Vec<LogResult> {
    vec![
        Ok(sample_record("10.0.0.2", 1549573860, "GET /api/user HTTP/1.0", 200, 1234)),
        Ok(sample_record("10.0.0.4", 1549573860, "GET /api/user HTTP/1.0", 200, 1234)),
        Ok(sample_record("10.0.0.4", 1549573860, "GET /api/user HTTP/1.0", 200, 1234)),
        Ok(sample_record("10.0.0.2", 1549573860, "GET /api/help HTTP/1.0", 200, 1234)),
        Ok(sample_record("10.0.0.5", 1549573860, "GET /api/help HTTP/1.0", 200, 1234)),
        Ok(sample_record("10.0.0.4", 1549573859, "GET /api/help HTTP/1.0", 200, 1234)),
        Ok(sample_record("10.0.0.5", 1549573860, "POST /report HTTP/1.0", 500, 1307)),
        Ok(sample_record("10.0.0.3", 1549573860, "POST /report HTTP/1.0", 200, 1234)),
        Ok(sample_record("10.0.0.3", 1549573860, "GET /report HTTP/1.0", 200, 1194)),
        Ok(sample_record("10.0.0.4", 1549573861, "GET /api/user HTTP/1.0", 200, 1136)),
        Ok(sample_record("10.0.0.5", 1549573861, "GET /api/user HTTP/1.0", 200, 1194)),
        Ok(sample_record("10.0.0.1", 1549573861, "GET /api/user HTTP/1.0", 200, 1261)),
        Ok(sample_record("10.0.0.3", 1549573860, "GET /api/help HTTP/1.0", 200, 1234)),
        Ok(sample_record("10.0.0.2", 1549573861, "GET /api/help HTTP/1.0", 200, 1194)),
        Ok(sample_record("10.0.0.5", 1549573860, "GET /api/help HTTP/1.0", 200, 1234)),
        Ok(sample_record("10.0.0.2", 1549573861, "GET /report HTTP/1.0", 200, 1136)),
        Ok(sample_record("10.0.0.5", 1549573861, "POST /report HTTP/1.0", 200, 1136)),
        Ok(sample_record("10.0.0.5", 1549573862, "GET /report HTTP/1.0", 200, 1261)),
        Ok(sample_record("10.0.0.2", 1549573863, "POST /api/user HTTP/1.0", 404, 1307)),
        Ok(sample_record("10.0.0.2", 1549573862, "GET /api/user HTTP/1.0", 200, 1234)),
        Ok(sample_record("10.0.0.4", 1549573861, "GET /api/user HTTP/1.0", 200, 1234)),
        Ok(sample_record("10.0.0.1", 1549573862, "GET /api/help HTTP/1.0", 500, 1136)),
        Ok(sample_record("10.0.0.4", 1549573862, "POST /api/help HTTP/1.0", 200, 1234)),
        Ok(sample_record("10.0.0.1", 1549573862, "GET /api/help HTTP/1.0", 200, 1234)),
        Ok(sample_record("10.0.0.1", 1549573862, "GET /report HTTP/1.0", 500, 1194)),
        Ok(sample_record("10.0.0.2", 1549573862, "GET /report HTTP/1.0", 200, 1307)),
        Ok(sample_record("10.0.0.2", 1549573863, "GET /report HTTP/1.0", 200, 1194)),
    ]
}

fn plain_record(time: usize, bytes: usize) -> HttpLog {
    sample_record("10.1.1.1", time, "GET /api/test HTTP/1.1", 200, bytes)
}

fn assert_buffered_is_ordered(logs: &Vec<GroupedHttpLogs>) {
    for pair in logs.windows(2) {
        assert!(pair[0].time <= pair[1].time, "{:?} - {:?}", pair[0], pair[1]);
    }
}

fn times_of(groups: &Vec<GroupedHttpLogs>) -> Vec<usize> {
    groups.iter().map(|g| g.time).collect()
}

#[test]
fn it_buffers_logs_and_returns_them_in_order_from_memory() {
    let logs = resequence(sample_source(), 2);
    let log_dates = logs.iter().map(|x| x.time).collect::<Vec<_>>();
    assert_buffered_is_ordered(&logs);
    assert_eq!(
        log_dates,
        vec![1549573859, 1549573860, 1549573861, 1549573862, 1549573863]
    );
}

#[test]
fn each_group_holds_the_records_of_its_second_in_arrival_order() {
    let source = sample_source();
    let logs = resequence(sample_source(), 2);
    let mut emitted = 0;
    for group in &logs {
        let expected: Vec<HttpLog> = source
            .iter()
            .filter_map(|item| item.as_ref().ok())
            .filter(|log| log.time == group.time)
            .cloned()
            .collect();
        assert!(!group.logs.is_empty());
        assert_eq!(group.logs, expected);
        emitted += group.logs.len();
    }
    assert_eq!(emitted, 27);
    assert_eq!(logs[0].logs.len(), 1);
    assert_eq!(logs[1].logs.len(), 10);
    assert_eq!(logs[2].logs.len(), 7);
    assert_eq!(logs[3].logs.len(), 7);
    assert_eq!(logs[4].logs.len(), 2);
}

#[test]
fn lines_that_could_not_be_parsed_are_passed_over() {
    let source: Vec<LogResult> = vec![
        Ok(plain_record(10, 1)),
        Err(ParseError::Malformed("a".to_string())),
        Ok(plain_record(10, 2)),
        Err(ParseError::NoVerb("".to_string())),
        Ok(plain_record(11, 3)),
    ];
    let groups = resequence(source, 2);
    assert_eq!(times_of(&groups), vec![10, 11]);
    assert_eq!(groups[0].logs, vec![plain_record(10, 1), plain_record(10, 2)]);
    assert_eq!(groups[1].logs, vec![plain_record(11, 3)]);
}

#[test]
fn an_empty_source_gives_no_group() {
    assert_eq!(resequence(Vec::new(), 2), Vec::new());
    let only_failures: Vec<LogResult> = vec![Err(ParseError::Malformed("x".to_string()))];
    assert_eq!(resequence(only_failures, 0), Vec::new());
}

#[test]
fn a_window_of_zero_still_orders_records_of_one_second() {
    let source: Vec<LogResult> = vec![
        Ok(plain_record(5, 1)),
        Ok(plain_record(5, 2)),
        Ok(plain_record(6, 3)),
        Ok(plain_record(6, 4)),
        Ok(plain_record(9, 5)),
    ];
    let groups = resequence(source, 0);
    assert_eq!(times_of(&groups), vec![5, 6, 9]);
    assert_eq!(groups[0].logs.len(), 2);
    assert_eq!(groups[1].logs.len(), 2);
    assert_eq!(groups[2].logs.len(), 1);
}

#[test]
fn a_record_behind_the_window_is_taken_and_comes_out_late() {
    let source: Vec<LogResult> = vec![
        Ok(plain_record(10, 1)),
        Ok(plain_record(20, 2)),
        Ok(plain_record(30, 3)),
        Ok(plain_record(12, 4)),
        Ok(plain_record(31, 5)),
    ];
    let groups = resequence(source, 2);
    assert_eq!(times_of(&groups), vec![10, 20, 12, 30, 31]);
    let kept: usize = groups.iter().map(|g| g.logs.len()).sum();
    assert_eq!(kept, 5);
}

#[test]
fn a_second_that_comes_back_behind_the_window_gets_a_group_of_its_own() {
    let source: Vec<LogResult> = vec![
        Ok(plain_record(10, 1)),
        Ok(plain_record(20, 2)),
        Ok(plain_record(10, 3)),
    ];
    let groups = resequence(source, 2);
    assert_eq!(times_of(&groups), vec![10, 10, 20]);
    assert_eq!(groups[0].logs, vec![plain_record(10, 1)]);
    assert_eq!(groups[1].logs, vec![plain_record(10, 3)]);
    assert_eq!(groups[2].logs, vec![plain_record(20, 2)]);
}

#[test]
fn a_first_record_at_second_zero_sets_the_watermarks() {
    let source: Vec<LogResult> = vec![
        Ok(plain_record(0, 1)),
        Ok(plain_record(1, 2)),
        Ok(plain_record(0, 3)),
        Ok(plain_record(4, 4)),
    ];
    let groups = resequence(source, 2);
    assert_eq!(times_of(&groups), vec![0, 1, 4]);
    assert_eq!(groups[0].logs, vec![plain_record(0, 1), plain_record(0, 3)]);
}

#[test]
fn the_buffer_pulls_until_the_window_is_passed_then_emits() {
    let mut buffer = BufferedLogs::new(2);
    assert!(buffer.wants_input());
    assert_eq!(buffer.resume(), Action::Pull);
    assert_eq!(buffer.advance(Answer::Item(Ok(plain_record(10, 1)))), Action::Pull);
    assert_eq!(buffer.advance(Answer::Item(Ok(plain_record(12, 2)))), Action::Pull);
    assert_eq!(
        buffer.advance(Answer::Item(Err(ParseError::Malformed("a".to_string())))),
        Action::Pull
    );
    assert_eq!(buffer.failures(), 1);
    assert_eq!(buffer.advance(Answer::NotReady), Action::Suspend);
    assert_eq!(buffer.resume(), Action::Pull);
    assert_eq!(
        buffer.advance(Answer::Item(Ok(plain_record(13, 3)))),
        Action::Emit(GroupedHttpLogs { time: 10, logs: vec![plain_record(10, 1)] })
    );
    assert!(buffer.wants_input());
    assert_eq!(buffer.resume(), Action::Pull);
    assert_eq!(
        buffer.advance(Answer::Exhausted),
        Action::Emit(GroupedHttpLogs { time: 12, logs: vec![plain_record(12, 2)] })
    );
    assert!(!buffer.wants_input());
    assert_eq!(
        buffer.resume(),
        Action::Emit(GroupedHttpLogs { time: 13, logs: vec![plain_record(13, 3)] })
    );
    assert_eq!(buffer.resume(), Action::End);
    assert_eq!(buffer.resume(), Action::End);
    assert_eq!(buffer.failures(), 1);
}

#[test]
fn a_source_that_ends_at_once_ends_the_sequence() {
    let mut buffer = BufferedLogs::new(5);
    assert_eq!(buffer.resume(), Action::Pull);
    assert_eq!(buffer.advance(Answer::Exhausted), Action::End);
    assert!(!buffer.wants_input());
}
