use log_ingestor::buffered_logs::GroupedHttpLogs;
use log_ingestor::process::{dispatch, process_logs};
use log_ingestor::processors::alerts::{
    announce, high_traffic_message, mark, recovered_message, LogCounter,
};
use log_ingestor::processors::{Alerts, Analysis, Outcome, ProcessError, Processor, Stats};
use log_ingestor::reader::{section, HttpLog, LogRequest, LogResult, ParseError};
use log_ingestor::report::{decimal_text, Piece};

fn build_test_http_log(time: usize, path: Option<String>) -> HttpLog {
    let path = path.unwrap_or("/api/test".to_string());
    HttpLog {
        remote_host: "10.1.1.1".to_string(),
        auth_user: "auth_user".to_string(),
        rfc931: "-".to_string(),
        time,
        request: LogRequest {
            verb: "GET".to_string(),
            section: section(&path),
            path,
            protocol: "HTTP/1.1".to_string(),
        },
        status: 200,
        bytes: 100,
    }
}

fn build_test_http_grouped_log(time: usize, len: usize, path: Option<String>) -> GroupedHttpLogs {
    GroupedHttpLogs {
        time,
        logs: (0..len).map(|_| build_test_http_log(time, path.clone())).collect(),
    }
}

fn sized_log(time: usize, path: &str, bytes: usize) -> HttpLog {
    let mut log = build_test_http_log(time, Some(path.to_string()));
    log.bytes = bytes;
    log
}

fn render(pieces: &[Piece]) -> String {
    let mut text = String::new();
    for piece in pieces {
        match piece {
            Piece::Text(part) => text.push_str(part),
            Piece::Ratio(over, under) => {
                text.push_str(&format!("{}", *over as f64 / *under as f64))
            }
        }
    }
    text
}

fn alert_prefix() -> String {
    console::style("\n>>> ALERT\n").bold().red().to_string()
}

struct CountingProcessor {
    calls: usize,
}

impl Processor for CountingProcessor {
    fn process(&mut self, _log_group: &GroupedHttpLogs) -> Outcome {
        self.calls += 1;
        Ok(vec![])
    }
}

fn text_of(piece: &Piece) -> String {
    match piece {
        Piece::Text(part) => part.clone(),
        Piece::Ratio(..) => panic!("a quotient where text was expected"),
    }
}

#[test]
fn should_alert_if_threshold_is_triggered() {
    let mut alerts = Alerts::new(1, 2);
    let mut writer = String::new();
    let mut shown = String::new();

    let logs = build_test_http_grouped_log(1, 3, None);
    let answer = alerts.process(&logs).unwrap();
    writer.push_str(&render(&answer));
    shown.push_str(&render(&announce(answer)));

    assert_eq!(writer, "High traffic generated an alert - hits = 1.5, triggered at 1\n");
    assert_eq!(
        shown,
        format!(
            "{}High traffic generated an alert - hits = 1.5, triggered at 1\n",
            alert_prefix()
        )
    );
}

#[test]
fn should_not_send_alert_if_threshold_has_been_already_triggered() {
    let mut alerts = Alerts::new(1, 2);
    let mut writer = String::new();
    let mut shown = String::new();

    let logs = vec![
        build_test_http_grouped_log(1, 3, None),
        build_test_http_grouped_log(2, 3, None),
    ];
    for log in logs {
        let answer = alerts.process(&log).unwrap();
        writer.push_str(&render(&answer));
        shown.push_str(&render(&announce(answer)));
    }

    assert_eq!(writer, "High traffic generated an alert - hits = 1.5, triggered at 1\n");
    assert_eq!(
        shown,
        format!(
            "{}High traffic generated an alert - hits = 1.5, triggered at 1\n",
            alert_prefix()
        )
    );
}

#[test]
fn should_recover_from_alert() {
    let mut alerts = Alerts::new(1, 2);
    let mut writer = String::new();
    let mut shown = String::new();

    let logs = vec![
        build_test_http_grouped_log(1, 3, None),
        build_test_http_grouped_log(4, 1, None),
    ];

    for log in logs {
        let answer = alerts.process(&log).unwrap();
        writer.push_str(&render(&answer));
        shown.push_str(&render(&announce(answer)));
    }

    assert_eq!(
        writer,
        "High traffic generated an alert - hits = 1.5, triggered at 1\nNormal traffic recovered - hits = 0.5, recovered at 4\n"
    );
    assert_eq!(
        shown,
        format!("{0}High traffic generated an alert - hits = 1.5, triggered at 1\n{0}Normal traffic recovered - hits = 0.5, recovered at 4\n", alert_prefix())
    );
}

#[test]
fn should_not_recover_twice_from_alert() {
    let mut alerts = Alerts::new(1, 2);
    let mut writer = String::new();
    let mut shown = String::new();

    let logs = vec![
        build_test_http_grouped_log(1, 3, None),
        build_test_http_grouped_log(4, 1, None),
        build_test_http_grouped_log(8, 1, None),
    ];

    for log in logs {
        let answer = alerts.process(&log).unwrap();
        writer.push_str(&render(&answer));
        shown.push_str(&render(&announce(answer)));
    }

    assert_eq!(
        writer,
        "High traffic generated an alert - hits = 1.5, triggered at 1\nNormal traffic recovered - hits = 0.5, recovered at 4\n"
    );
    assert_eq!(
        shown,
        format!("{0}High traffic generated an alert - hits = 1.5, triggered at 1\n{0}Normal traffic recovered - hits = 0.5, recovered at 4\n", alert_prefix())
    );
}

#[test]
fn a_rate_at_the_threshold_counts_as_recovered() {
    let mut alerts = Alerts::new(1, 2);
    let raised = alerts.process(&build_test_http_grouped_log(1, 3, None)).unwrap();
    assert_eq!(render(&raised), "High traffic generated an alert - hits = 1.5, triggered at 1\n");
    let lowered = alerts.process(&build_test_http_grouped_log(4, 2, None)).unwrap();
    assert_eq!(render(&lowered), "Normal traffic recovered - hits = 1, recovered at 4\n");
    assert_eq!(
        lowered,
        vec![
            Piece::Text("Normal traffic recovered - hits = ".to_string()),
            Piece::Ratio(2, 2),
            Piece::Text(", recovered at 4\n".to_string()),
        ]
    );
}

#[test]
fn it_works() {
    let mut stats = Stats::new(3);
    let mut writer = String::new();

    let logs = vec![
        build_test_http_grouped_log(1, 3, Some("/api/users".to_string())),
        build_test_http_grouped_log(2, 3, Some("/api/users".to_string())),
        build_test_http_grouped_log(3, 2, Some("/api/friends".to_string())),
    ];

    for log in logs {
        writer.push_str(&render(&stats.process(&log).unwrap()));
    }

    assert_eq!(
        writer,
        "\nSTATS (3s):\n********\nSection: /api, Total Hits: 8, Avg Reqs/Sec: 2.6666666666666665, Avg Time: 0.375s, Avg Bytes: 100\n"
    );
}

#[test]
fn shows_as_many_sections_as_needed() {
    let mut stats = Stats::new(3);
    let mut writer = String::new();

    let logs = vec![
        build_test_http_grouped_log(1, 3, Some("/web/portal".to_string())),
        build_test_http_grouped_log(2, 3, Some("/api/users".to_string())),
        build_test_http_grouped_log(3, 2, Some("/api/friends".to_string())),
    ];

    for log in logs {
        writer.push_str(&render(&stats.process(&log).unwrap()));
    }

    let expect = vec!["\nSTATS (3s):\n********\nSection: /web, Total Hits: 3, Avg Reqs/Sec: 1, Avg Time: 1s, Avg Bytes: 100\nSection: /api, Total Hits: 5, Avg Reqs/Sec: 1.6666666666666667, Avg Time: 0.6s, Avg Bytes: 100\n", "\nSTATS (3s):\n********\nSection: /api, Total Hits: 5, Avg Reqs/Sec: 1.6666666666666667, Avg Time: 0.6s, Avg Bytes: 100\nSection: /web, Total Hits: 3, Avg Reqs/Sec: 1, Avg Time: 1s, Avg Bytes: 100\n"];

    assert!(expect.contains(&writer.as_str()));
}

#[test]
fn each_processor_is_called_n_times() {
    let times = [
        1549573860, 1549573860, 1549573860, 1549573860, 1549573860, 1549573859, 1549573860,
        1549573860, 1549573860, 1549573861, 1549573861, 1549573861, 1549573860, 1549573861,
        1549573860, 1549573861, 1549573861, 1549573862, 1549573863, 1549573862, 1549573861,
        1549573862, 1549573862, 1549573862, 1549573862, 1549573862, 1549573863,
    ];
    let source: Vec<LogResult> =
        times.iter().map(|t| Ok(build_test_http_log(*t, None))).collect();

    let mut processors = vec![CountingProcessor { calls: 0 }, CountingProcessor { calls: 0 }];

    let result = process_logs(source, 2, &mut processors);

    assert_eq!(processors[0].calls, 5);
    assert_eq!(processors[1].calls, 5);
    assert_eq!(result.len(), 5);
    for outcomes in &result {
        assert_eq!(outcomes.len(), 2);
        assert!(outcomes.iter().all(|o| o.is_ok()));
    }
}

#[test]
fn sections_are_listed_in_the_order_in_which_they_were_first_seen() {
    let mut stats = Stats::new(3);
    let group = GroupedHttpLogs {
        time: 3,
        logs: vec![
            sized_log(3, "/web/a", 10),
            sized_log(3, "/api/b", 20),
            sized_log(3, "/web/c", 31),
            sized_log(3, "/img", 7),
        ],
    };
    let block = stats.process(&group).unwrap();
    assert_eq!(
        block,
        vec![
            Piece::Text("\nSTATS (3s):\n********\n".to_string()),
            Piece::Text("Section: /web, Total Hits: 2, Avg Reqs/Sec: ".to_string()),
            Piece::Ratio(2, 3),
            Piece::Text(", Avg Time: ".to_string()),
            Piece::Ratio(3, 2),
            Piece::Text("s, Avg Bytes: 20\n".to_string()),
            Piece::Text("Section: /api, Total Hits: 1, Avg Reqs/Sec: ".to_string()),
            Piece::Ratio(1, 3),
            Piece::Text(", Avg Time: ".to_string()),
            Piece::Ratio(3, 1),
            Piece::Text("s, Avg Bytes: 20\n".to_string()),
            Piece::Text("Section: /img, Total Hits: 1, Avg Reqs/Sec: ".to_string()),
            Piece::Ratio(1, 3),
            Piece::Text(", Avg Time: ".to_string()),
            Piece::Ratio(3, 1),
            Piece::Text("s, Avg Bytes: 7\n".to_string()),
        ]
    );
}

#[test]
fn stats_flush_once_per_period_and_start_over() {
    let mut stats = Stats::new(3);
    assert_eq!(stats.process(&build_test_http_grouped_log(1, 3, None)).unwrap(), vec![]);
    assert_eq!(stats.process(&build_test_http_grouped_log(2, 3, None)).unwrap(), vec![]);
    let first = render(&stats.process(&build_test_http_grouped_log(3, 2, None)).unwrap());
    assert_eq!(
        first,
        "\nSTATS (3s):\n********\nSection: /api, Total Hits: 8, Avg Reqs/Sec: 2.6666666666666665, Avg Time: 0.375s, Avg Bytes: 100\n"
    );
    assert_eq!(stats.process(&build_test_http_grouped_log(4, 1, None)).unwrap(), vec![]);
    assert_eq!(stats.process(&build_test_http_grouped_log(5, 1, None)).unwrap(), vec![]);
    let second = render(&stats.process(&build_test_http_grouped_log(7, 2, None)).unwrap());
    assert_eq!(
        second,
        "\nSTATS (4s):\n********\nSection: /api, Total Hits: 4, Avg Reqs/Sec: 1, Avg Time: 1s, Avg Bytes: 100\n"
    );
}

#[test]
fn stats_of_a_group_before_the_last_flush_are_kept_for_the_next_block() {
    let mut stats = Stats::new(2);
    let first = stats.process(&build_test_http_grouped_log(10, 1, None)).unwrap();
    assert_eq!(text_of(&first[0]), "\nSTATS (10s):\n********\n");
    assert_eq!(stats.process(&build_test_http_grouped_log(9, 2, None)).unwrap(), vec![]);
    let block = render(&stats.process(&build_test_http_grouped_log(12, 1, None)).unwrap());
    assert_eq!(
        block,
        "\nSTATS (2s):\n********\nSection: /api, Total Hits: 3, Avg Reqs/Sec: 1.5, Avg Time: 0.6666666666666666s, Avg Bytes: 100\n"
    );
}

#[test]
fn stats_with_an_empty_group_write_the_head_alone() {
    let mut stats = Stats::new(0);
    let block = stats.process(&GroupedHttpLogs { time: 0, logs: vec![] }).unwrap();
    assert_eq!(block, vec![Piece::Text("\nSTATS (0s):\n********\n".to_string())]);
}

#[test]
fn the_mean_size_is_rounded_down_and_takes_large_sizes() {
    let mut stats = Stats::new(1);
    let group = GroupedHttpLogs {
        time: 1,
        logs: vec![
            sized_log(1, "/big", usize::MAX),
            sized_log(1, "/big", usize::MAX),
            sized_log(1, "/big", 2),
        ],
    };
    let block = stats.process(&group).unwrap();
    let mean = (2 * (usize::MAX as u128) + 2) / 3;
    assert_eq!(text_of(&block[5]), format!("s, Avg Bytes: {}\n", mean));
}

#[test]
fn replaying_the_same_groups_writes_the_same() {
    let groups = || {
        vec![
            build_test_http_grouped_log(1, 3, Some("/web/portal".to_string())),
            build_test_http_grouped_log(2, 3, Some("/api/users".to_string())),
            build_test_http_grouped_log(3, 2, Some("/api/friends".to_string())),
            build_test_http_grouped_log(4, 1, None),
            build_test_http_grouped_log(8, 1, None),
        ]
    };
    let run = || {
        let mut processors =
            vec![Analysis::Alerts(Alerts::new(1, 2)), Analysis::Stats(Stats::new(3))];
        let mut written = Vec::new();
        for group in groups() {
            written.push(dispatch(&mut processors, &group));
        }
        written
    };
    let first = run();
    let second = run();
    assert_eq!(first, second);
    assert_eq!(first.len(), 5);
    assert!(first.iter().any(|outcomes| outcomes.iter().any(|o| o != &Ok(vec![]))));
}

#[test]
fn the_alarm_is_not_raised_at_the_threshold() {
    let mut alerts = Alerts::new(1, 2);
    assert_eq!(alerts.process(&build_test_http_grouped_log(1, 2, None)), Ok(vec![]));
    let raised = alerts.process(&build_test_http_grouped_log(2, 1, None)).unwrap();
    assert_eq!(raised[1], Piece::Ratio(3, 2));
    assert_eq!(text_of(&raised[2]), ", triggered at 2\n");
}

#[test]
fn the_alarm_writes_its_messages_as_they_are_laid_down() {
    let mut alerts = Alerts::new(1, 2);
    let raised = alerts.evaluate(LogCounter { time: 1, req_count: 3 }).unwrap();
    assert_eq!(
        raised,
        vec![
            Piece::Text("High traffic generated an alert - hits = ".to_string()),
            Piece::Ratio(3, 2),
            Piece::Text(", triggered at 1\n".to_string()),
        ]
    );
    assert_eq!(alerts.evaluate(LogCounter { time: 2, req_count: 3 }), Ok(vec![]));
    let lowered = alerts.evaluate(LogCounter { time: 5, req_count: 2 }).unwrap();
    assert_eq!(
        lowered,
        vec![
            Piece::Text("Normal traffic recovered - hits = ".to_string()),
            Piece::Ratio(2, 2),
            Piece::Text(", recovered at 5\n".to_string()),
        ]
    );
    assert_eq!(high_traffic_message(7, 3, 1549573860), vec![
        Piece::Text("High traffic generated an alert - hits = ".to_string()),
        Piece::Ratio(7, 3),
        Piece::Text(", triggered at 1549573860\n".to_string()),
    ]);
    assert_eq!(recovered_message(0, 0, 0), vec![
        Piece::Text("Normal traffic recovered - hits = ".to_string()),
        Piece::Ratio(0, 0),
        Piece::Text(", recovered at 0\n".to_string()),
    ]);
}

#[test]
fn the_marker_goes_in_front_of_a_message_and_of_nothing_else() {
    let message = high_traffic_message(3, 2, 1);
    assert_eq!(
        mark("M", message.clone()),
        vec![
            Piece::Text("M".to_string()),
            Piece::Text("High traffic generated an alert - hits = ".to_string()),
            Piece::Ratio(3, 2),
            Piece::Text(", triggered at 1\n".to_string()),
        ]
    );
    assert_eq!(mark("M", vec![]), vec![]);
    assert_eq!(announce(vec![]), vec![]);
    let alarm = Analysis::Alerts(Alerts::new(1, 2));
    let shown = alarm.for_terminal(message.clone());
    assert_eq!(shown.len(), 4);
    assert_eq!(shown[0], Piece::Text(alert_prefix()));
    assert_eq!(shown[1..], message[..]);
    assert_eq!(alarm.for_terminal(vec![]), vec![]);
    let stats = Analysis::Stats(Stats::new(3));
    assert_eq!(stats.for_terminal(message.clone()), message);
}

#[test]
fn the_alarm_keeps_the_samples_of_the_window_and_both_its_ends() {
    let mut alerts = Alerts::new(2, 2);
    assert_eq!(alerts.evaluate(LogCounter { time: 1, req_count: 2 }), Ok(vec![]));
    assert_eq!(alerts.evaluate(LogCounter { time: 2, req_count: 1 }), Ok(vec![]));
    let raised = alerts.evaluate(LogCounter { time: 3, req_count: 2 }).unwrap();
    assert_eq!(raised[1], Piece::Ratio(5, 2));
    let lowered = alerts.evaluate(LogCounter { time: 4, req_count: 1 }).unwrap();
    assert_eq!(lowered[1], Piece::Ratio(4, 2));
    assert_eq!(text_of(&lowered[0]), "Normal traffic recovered - hits = ");
}

#[test]
fn the_alarm_refuses_a_group_below_its_floor_and_stays_as_it_was() {
    let mut alerts = Alerts::new(1, 2);
    assert_eq!(alerts.evaluate(LogCounter { time: 10, req_count: 1 }), Ok(vec![]));
    assert_eq!(
        alerts.evaluate(LogCounter { time: 9, req_count: 50 }),
        Err(ProcessError::OutOfOrder { time: 9, floor: 10 })
    );
    assert_eq!(alerts.evaluate(LogCounter { time: 20, req_count: 1 }), Ok(vec![]));
    assert_eq!(
        alerts.process(&build_test_http_grouped_log(17, 1, None)),
        Err(ProcessError::OutOfOrder { time: 17, floor: 18 })
    );
    assert_eq!(alerts.evaluate(LogCounter { time: 18, req_count: 1 }), Ok(vec![]));
    let raised = alerts.evaluate(LogCounter { time: 19, req_count: 1 }).unwrap();
    assert_eq!(raised[1], Piece::Ratio(3, 2));
}

#[test]
fn the_origin_of_the_alarm_never_moves_back() {
    let mut alerts = Alerts::new(100, 5);
    assert_eq!(alerts.evaluate(LogCounter { time: 10, req_count: 1 }), Ok(vec![]));
    assert_eq!(alerts.evaluate(LogCounter { time: 20, req_count: 1 }), Ok(vec![]));
    assert_eq!(alerts.evaluate(LogCounter { time: 24, req_count: 1 }), Ok(vec![]));
    assert_eq!(alerts.evaluate(LogCounter { time: 16, req_count: 1 }), Ok(vec![]));
    assert_eq!(
        alerts.evaluate(LogCounter { time: 18, req_count: 1 }),
        Err(ProcessError::OutOfOrder { time: 18, floor: 19 })
    );
}

#[test]
fn the_alarm_with_a_window_of_zero_counts_the_latest_second_alone() {
    let mut alerts = Alerts::new(0, 0);
    let raised = alerts.evaluate(LogCounter { time: 1, req_count: 3 }).unwrap();
    assert_eq!(raised[1], Piece::Ratio(3, 0));
    assert_eq!(render(&raised), "High traffic generated an alert - hits = inf, triggered at 1\n");
    assert_eq!(alerts.evaluate(LogCounter { time: 2, req_count: 4 }), Ok(vec![]));
    let lowered = alerts.evaluate(LogCounter { time: 3, req_count: 0 }).unwrap();
    assert_eq!(lowered[1], Piece::Ratio(0, 0));
}

#[test]
fn the_alarm_adds_up_counts_beyond_the_machine_word() {
    let mut alerts = Alerts::new(usize::MAX, 1);
    assert_eq!(alerts.evaluate(LogCounter { time: 1, req_count: usize::MAX }), Ok(vec![]));
    let raised = alerts.evaluate(LogCounter { time: 2, req_count: 1 }).unwrap();
    assert_eq!(raised[1], Piece::Ratio(usize::MAX as u128 + 1, 1));
}

#[test]
fn the_marker_of_the_alarm_comes_with_or_without_colours() {
    let shown = announce(recovered_message(1, 2, 3));
    let marker = text_of(&shown[0]);
    let plain = "\n>>> ALERT\n";
    let styled = "\x1b[31m\x1b[1m\n>>> ALERT\n\x1b[0m";
    assert!(marker == plain || marker == styled, "{:?}", marker);
    assert_eq!(shown[1..], recovered_message(1, 2, 3)[..]);
}

#[test]
fn a_sample_is_the_second_and_the_size_of_a_group() {
    let group = build_test_http_grouped_log(7, 4, None);
    assert_eq!(LogCounter::from(&group), LogCounter { time: 7, req_count: 4 });
}

#[test]
fn dispatch_hands_the_group_to_every_processor_whatever_the_others_answer() {
    let mut processors = vec![
        Analysis::Alerts(Alerts::new(1, 2)),
        Analysis::Stats(Stats::new(100)),
        Analysis::Alerts(Alerts::new(0, 1)),
    ];
    let first = dispatch(&mut processors, &build_test_http_grouped_log(200, 1, None));
    assert_eq!(first.len(), 3);
    assert_eq!(first[0], Ok(vec![]));
    assert_eq!(text_of(&first[1].as_ref().unwrap()[0]), "\nSTATS (200s):\n********\n");
    assert_eq!(first[2].as_ref().unwrap()[1], Piece::Ratio(1, 1));
    let second = dispatch(&mut processors, &build_test_http_grouped_log(100, 1, None));
    assert_eq!(second[0], Err(ProcessError::OutOfOrder { time: 100, floor: 200 }));
    assert_eq!(second[1], Ok(vec![]));
    assert_eq!(second[2], Err(ProcessError::OutOfOrder { time: 100, floor: 200 }));
    let third = dispatch(&mut processors, &build_test_http_grouped_log(300, 3, None));
    assert_eq!(third[0].as_ref().unwrap()[1], Piece::Ratio(3, 2));
    assert_eq!(
        render(third[1].as_ref().unwrap()),
        "\nSTATS (100s):\n********\nSection: /api, Total Hits: 4, Avg Reqs/Sec: 0.04, Avg Time: 25s, Avg Bytes: 100\n"
    );
    assert_eq!(third[2], Ok(vec![]));
}

#[test]
fn the_pipeline_dispatches_the_groups_in_the_order_of_their_seconds() {
    let source: Vec<LogResult> = vec![
        Ok(build_test_http_log(11, None)),
        Ok(build_test_http_log(10, None)),
        Err(ParseError::Malformed("a".to_string())),
        Ok(build_test_http_log(11, None)),
        Ok(build_test_http_log(11, None)),
        Ok(build_test_http_log(14, None)),
    ];
    let mut processors = vec![Analysis::Alerts(Alerts::new(1, 2))];
    let written = process_logs(source, 2, &mut processors);
    assert_eq!(written.len(), 3);
    assert_eq!(written[0][0], Ok(vec![]));
    assert_eq!(written[1][0].as_ref().unwrap()[1], Piece::Ratio(4, 2));
    assert_eq!(text_of(&written[1][0].as_ref().unwrap()[2]), ", triggered at 11\n");
    assert_eq!(written[2][0].as_ref().unwrap()[1], Piece::Ratio(1, 2));
    assert_eq!(text_of(&written[2][0].as_ref().unwrap()[2]), ", recovered at 14\n");
}

#[test]
fn a_copy_of_a_processor_goes_on_as_the_processor_would() {
    let mut alerts = Alerts::new(1, 2);
    alerts.process(&build_test_http_grouped_log(1, 3, None)).unwrap();
    let mut copy = alerts.clone();
    assert_eq!(copy, alerts);
    let next = build_test_http_grouped_log(4, 1, None);
    assert_eq!(copy.process(&next), alerts.process(&next));
    assert_eq!(copy, alerts);

    let mut stats = Stats::new(3);
    stats.process(&build_test_http_grouped_log(1, 3, Some("/web/a".to_string()))).unwrap();
    stats.process(&build_test_http_grouped_log(2, 1, None)).unwrap();
    let mut copy = stats.clone();
    assert_eq!(copy, stats);
    let next = build_test_http_grouped_log(3, 2, None);
    let block = copy.process(&next);
    assert_eq!(block, stats.process(&next));
    assert_eq!(block.unwrap().len(), 11);
    assert_eq!(copy, stats);
}

#[test]
fn errors_say_what_went_wrong() {
    assert_eq!(
        ProcessError::OutOfOrder { time: 1, floor: 2 }.message(),
        "Log group time is less than the minor time. Try to adjust the BufferedLogs seconds property."
    );
    assert_eq!(ProcessError::Failed("disk".to_string()).message(), "disk");
}

#[test]
fn numbers_are_written_in_decimal() {
    assert_eq!(decimal_text(0), "0");
    assert_eq!(decimal_text(7), "7");
    assert_eq!(decimal_text(10), "10");
    assert_eq!(decimal_text(1549573859), "1549573859");
    assert_eq!(decimal_text(u128::MAX), "340282366920938463463374607431768211455");
    for n in [9u128, 99, 100, 101, 909, 1000, 12345678901234567890] {
        assert_eq!(decimal_text(n), n.to_string());
    }
}
