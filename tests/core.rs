use loadtest::{
    create_layout, csv_text, decimal_string, get_headers, log_row, parse_csv, parse_csv_line, parse_header,
    string_to_method, App, Args, Collector, HttpMethod, Message, Rect, Results, UpdateError,
    Worker, CSV_HEADER,
};

fn args_with(headers: Vec<String>, concurrent_requests: u16) -> Args {
    Args {
        url: "http://localhost:8080/health".to_string(),
        concurrent_requests,
        test_time: 30,
        headers,
        method: "GET".to_string(),
        out_file: None,
        debug: false,
    }
}

fn result(code: u16, elapsed: u128) -> Results {
    Results { response_code: code, elapsed, body: String::new() }
}

#[test]
fn bucket_counts_sum_to_total_after_every_update() {
    let mut app = App::new(args_with(vec![], 1), 0);
    let codes = [200u16, 301, 404, 503, 250, 399, 418, 599, 200];
    for (i, code) in codes.iter().enumerate() {
        app.update_state(*code, 10, i as u64).unwrap();
        let buckets = app.results();
        assert_eq!(buckets.iter().sum::<u64>(), app.total_responses());
        assert_eq!(app.total_responses(), i as u64 + 1);
    }
    assert_eq!(app.results(), [3, 2, 2, 2]);
}

#[test]
fn average_is_true_mean_in_any_order() {
    let times = [12u128, 5, 50, 7];
    let mut forward = App::new(args_with(vec![], 1), 0);
    let mut backward = App::new(args_with(vec![], 1), 0);
    for t in times.iter() {
        forward.update_state(200, *t, 0).unwrap();
    }
    for t in times.iter().rev() {
        backward.update_state(200, *t, 0).unwrap();
    }
    assert_eq!(forward.total_response_time(), 74);
    assert_eq!(backward.total_response_time(), 74);
    assert_eq!(forward.average_response_time(), 18);
    assert_eq!(backward.average_response_time(), 18);
    let mean = forward.total_response_time() as f64 / forward.total_responses() as f64;
    assert!((mean - 18.5).abs() < 1e-9);
}

#[test]
fn average_of_three_outcomes() {
    let mut app = App::new(args_with(vec![], 1), 0);
    app.update_state(200, 12, 0).unwrap();
    app.update_state(404, 5, 0).unwrap();
    app.update_state(500, 50, 0).unwrap();
    assert_eq!(app.average_response_time(), 22);
    assert_eq!(app.response_times(), &vec![12u128, 5, 50]);
}

#[test]
fn average_before_any_response_is_zero() {
    let app = App::new(args_with(vec![], 1), 0);
    assert_eq!(app.average_response_time(), 0);
    assert_eq!(app.total_responses(), 0);
}

fn error_percentage(app: &App) -> f64 {
    app.failed_responses() as f64 / app.error_divisor() as f64
}

#[test]
fn error_percentage_without_responses_is_zero() {
    let app = App::new(args_with(vec![], 1), 0);
    assert_eq!(app.failed_responses(), 0);
    assert_eq!(app.error_divisor(), 1);
    assert_eq!(error_percentage(&app), 0.0);
}

#[test]
fn error_percentage_without_successes_divides_by_one() {
    let mut app = App::new(args_with(vec![], 1), 0);
    app.update_state(404, 1, 0).unwrap();
    app.update_state(500, 1, 0).unwrap();
    app.update_state(503, 1, 0).unwrap();
    assert_eq!(app.failed_responses(), 3);
    assert_eq!(app.error_divisor(), 1);
    assert_eq!(error_percentage(&app), 3.0);
}

#[test]
fn error_percentage_is_failed_over_successful() {
    let mut app = App::new(args_with(vec![], 1), 0);
    for _ in 0..2 {
        app.update_state(200, 1, 0).unwrap();
    }
    for _ in 0..5 {
        app.update_state(404, 1, 0).unwrap();
    }
    assert_eq!(app.failed_responses(), 5);
    assert_eq!(app.error_divisor(), 2);
    assert_eq!(error_percentage(&app), 2.5);
}

#[test]
fn run_completes_only_after_every_finished() {
    let mut collector = Collector::new(3);
    assert!(!collector.is_complete());
    assert_eq!(collector.receive(Message::Result(result(200, 4))), Some((200, 4)));
    assert_eq!(collector.receive(Message::Finished), None);
    assert_eq!(collector.receive(Message::Finished), None);
    assert_eq!(collector.waiting_workers(), 1);
    assert!(!collector.is_complete());
    assert_eq!(collector.receive(Message::Result(result(404, 9))), Some((404, 9)));
    assert_eq!(collector.receive(Message::Finished), None);
    assert!(collector.is_complete());
    let log = collector.into_results();
    assert_eq!(log.len(), 2);
    assert_eq!(log[0].response_code, 200);
    assert_eq!(log[1].response_code, 404);
}

#[test]
fn collector_with_no_workers_is_complete() {
    let collector = Collector::new(0);
    assert!(collector.is_complete());
    assert!(collector.results().is_empty());
}

#[test]
fn extra_finished_keeps_collector_complete() {
    let mut collector = Collector::new(1);
    collector.receive(Message::Finished);
    collector.receive(Message::Finished);
    assert_eq!(collector.waiting_workers(), 0);
    assert!(collector.is_complete());
}

#[test]
fn burst_of_results_within_interval_redraws_at_most_once() {
    let mut app = App::new(args_with(vec![], 10), 0);
    let mut redraws = 0;
    for i in 0..10_000u64 {
        let now = 2_000 + i / 1_000;
        if app.update_state(200, 1, now).unwrap() {
            redraws += 1;
        }
    }
    assert!(redraws <= 1);
    assert_eq!(redraws, 1);
    assert_eq!(app.total_responses(), 10_000);
}

#[test]
fn redraw_waits_for_interval() {
    let mut app = App::new(args_with(vec![], 1), 100);
    assert_eq!(app.update_state(200, 1, 500), Ok(false));
    assert_eq!(app.update_state(200, 1, 1_099), Ok(false));
    assert_eq!(app.update_state(200, 1, 1_100), Ok(true));
    assert_eq!(app.update_state(200, 1, 2_000), Ok(false));
    assert_eq!(app.update_state(200, 1, 2_100), Ok(true));
    assert_eq!(app.update_state(200, 1, 50), Ok(false));
}

#[test]
fn log_round_trip_of_three_outcomes() {
    let host = "http://localhost:8080/health";
    let results = vec![
        Results { response_code: 200, elapsed: 12, body: String::new() },
        Results { response_code: 404, elapsed: 5, body: String::new() },
        Results { response_code: 500, elapsed: 50, body: String::new() },
    ];
    let text = csv_text(host, &results);
    assert!(text.starts_with(CSV_HEADER));
    let rows = parse_csv(&text).unwrap();
    assert_eq!(rows.len(), 3);
    let expected = [(200u16, 12u128), (404, 5), (500, 50)];
    for (row, (code, elapsed)) in rows.iter().zip(expected.iter()) {
        assert_eq!(row.host, host);
        assert_eq!(row.response_code, *code);
        assert_eq!(row.elapsed, *elapsed);
        assert_eq!(row.body, "");
    }
}

#[test]
fn log_text_has_header_and_rows() {
    let results = vec![Results { response_code: 201, elapsed: 7, body: "ok".to_string() }];
    let text = csv_text("h", &results);
    assert_eq!(text, "host,status_code,time_millis,body\nh,201,7, ok\n");
}

#[test]
fn log_row_keeps_commas_in_body() {
    let r = Results { response_code: 503, elapsed: 1234, body: "a, b,c".to_string() };
    let row = log_row("example.com", &r);
    assert_eq!(row, "example.com,503,1234, a, b,c");
    let back = parse_csv_line(&row).unwrap();
    assert_eq!(back.host, "example.com");
    assert_eq!(back.response_code, 503);
    assert_eq!(back.elapsed, 1234);
    assert_eq!(back.body, "a, b,c");
}

#[test]
fn csv_line_of_a_result() {
    let r = Results { response_code: 200, elapsed: 12, body: "ok".to_string() };
    assert_eq!(r.to_csv_line(), "200,12, ok");
}

#[test]
fn malformed_rows_are_rejected() {
    assert!(parse_csv_line("").is_none());
    assert!(parse_csv_line("host,200,12").is_none());
    assert!(parse_csv_line("host,200,12,body").is_none());
    assert!(parse_csv_line("host,2x0,12, body").is_none());
    assert!(parse_csv_line("host,,12, body").is_none());
    assert!(parse_csv_line("host,70000,12, body").is_none());
}

#[test]
fn decimal_strings() {
    assert_eq!(decimal_string(0), "0");
    assert_eq!(decimal_string(9), "9");
    assert_eq!(decimal_string(10), "10");
    assert_eq!(decimal_string(u128::MAX), u128::MAX.to_string());
}

#[test]
fn one_worker_zero_duration_sends_one_request() {
    let args = Args { test_time: 0, ..args_with(vec![], 1) };
    let mut worker = Worker::new(args.test_time);
    let mut collector = Collector::new(args.concurrent_requests);
    let mut app = App::new(args, 0);
    let mut requests = 0;
    while !worker.is_done() {
        requests += 1;
        for msg in worker.after_attempt(Some(result(200, 3)), 0) {
            if let Some((code, elapsed)) = collector.receive(msg) {
                app.update_state(code, elapsed, 0).unwrap();
            }
        }
    }
    assert_eq!(requests, 1);
    assert!(collector.is_complete());
    assert_eq!(app.total_responses(), 1);
}

#[test]
fn one_worker_zero_duration_transport_failure_still_completes() {
    let mut worker = Worker::new(0);
    let mut collector = Collector::new(1);
    let msgs = worker.after_attempt(None, 0);
    assert_eq!(msgs.len(), 1);
    assert!(matches!(msgs[0], Message::Finished));
    for msg in msgs {
        assert!(collector.receive(msg).is_none());
    }
    assert!(worker.is_done());
    assert!(collector.is_complete());
    assert!(collector.results().is_empty());
}

#[test]
fn worker_stops_after_deadline() {
    let mut worker = Worker::new(2);
    assert_eq!(worker.after_attempt(Some(result(200, 1)), 0).len(), 1);
    assert_eq!(worker.after_attempt(None, 1).len(), 0);
    assert!(!worker.is_done());
    let last = worker.after_attempt(Some(result(200, 1)), 2);
    assert_eq!(last.len(), 2);
    assert!(matches!(last[0], Message::Result(_)));
    assert!(matches!(last[1], Message::Finished));
    assert!(worker.is_done());
    assert!(worker.after_attempt(Some(result(200, 1)), 3).is_empty());
}

#[test]
fn five_workers_all_ok() {
    let mut workers: Vec<Worker> = (0..5).map(|_| Worker::new(1)).collect();
    let mut collector = Collector::new(5);
    let mut app = App::new(args_with(vec![], 5), 0);
    let mut second = 0u64;
    while !collector.is_complete() {
        for w in workers.iter_mut() {
            for msg in w.after_attempt(Some(result(200, 8)), second) {
                if let Some((code, elapsed)) = collector.receive(msg) {
                    app.update_state(code, elapsed, second * 1_000).unwrap();
                }
            }
        }
        second += 1;
    }
    let k = app.total_responses();
    assert_eq!(k, 10);
    assert_eq!(app.results(), [k, 0, 0, 0]);
    assert_eq!(app.failed_responses(), 0);
    assert_eq!(error_percentage(&app), 0.0);
    assert_eq!(collector.results().len() as u64, k);
}

#[test]
fn status_codes_outside_classes_are_rejected() {
    let mut app = App::new(args_with(vec![], 1), 0);
    assert_eq!(app.update_state(199, 1, 0), Err(UpdateError::StatusOutOfRange));
    assert_eq!(app.update_state(600, 1, 0), Err(UpdateError::StatusOutOfRange));
    assert_eq!(app.update_state(101, 1, 0), Err(UpdateError::StatusOutOfRange));
    assert_eq!(app.total_responses(), 0);
    assert_eq!(app.update_state(200, 1, 0), Ok(false));
    assert_eq!(app.update_state(599, 1, 0), Ok(false));
    assert_eq!(app.results(), [1, 0, 0, 1]);
}

#[test]
fn response_time_overflow_is_rejected() {
    let mut app = App::new(args_with(vec![], 1), 0);
    assert!(app.update_state(200, u128::MAX, 0).is_ok());
    assert_eq!(app.update_state(200, 1, 0), Err(UpdateError::CounterOverflow));
    assert_eq!(app.total_responses(), 1);
    assert_eq!(app.total_response_time(), u128::MAX);
}

#[test]
fn max_bucket_and_sparkline() {
    let mut app = App::new(args_with(vec![], 1), 0);
    app.update_state(200, 1, 0).unwrap();
    app.update_state(404, 2, 0).unwrap();
    app.update_state(404, 3, 0).unwrap();
    assert_eq!(app.max_bucket(), 2);
    assert_eq!(app.sparkline_data(2), vec![3u64, 2]);
    assert_eq!(app.sparkline_data(10), vec![3u64, 2, 1]);
    assert!(app.sparkline_data(0).is_empty());
}

#[test]
fn methods_are_matched_in_any_case() {
    assert_eq!(string_to_method("get"), Some(HttpMethod::Get));
    assert_eq!(string_to_method("PoSt"), Some(HttpMethod::Post));
    assert_eq!(string_to_method("patch"), Some(HttpMethod::Patch));
    assert_eq!(string_to_method("PUT"), Some(HttpMethod::Put));
    assert_eq!(string_to_method("Delete"), Some(HttpMethod::Delete));
    assert_eq!(string_to_method("HEAD"), None);
    assert_eq!(string_to_method("GETS"), None);
    assert_eq!(string_to_method(""), None);
}

#[test]
fn header_names_are_lowercased() {
    assert_eq!(
        parse_header("X-Token: ABC"),
        Some(("x-token".to_string(), "ABC".to_string()))
    );
    assert_eq!(
        parse_header("accept: application/json"),
        Some(("accept".to_string(), "application/json".to_string()))
    );
}

#[test]
fn malformed_header_strings_are_rejected() {
    assert_eq!(parse_header("no separator"), None);
    assert_eq!(parse_header("a: b: c"), None);
    assert_eq!(parse_header("a:b"), None);
    assert_eq!(get_headers(vec!["bad".to_string()]), None);
    let headers = get_headers(vec![
        "Accept: text/html".to_string(),
        "broken".to_string(),
        "Authorization: Bearer SECRET-REDACTED".to_string(),
    ]);
    assert_eq!(headers, None);
}

#[test]
fn well_formed_headers_are_all_kept() {
    let headers = get_headers(vec![
        "Accept: text/html".to_string(),
        "Authorization: Bearer SECRET-REDACTED".to_string(),
    ]);
    assert_eq!(
        headers,
        Some(vec![
            ("accept".to_string(), "text/html".to_string()),
            ("authorization".to_string(), "Bearer SECRET-REDACTED".to_string()),
        ])
    );
    assert_eq!(get_headers(vec![]), Some(vec![]));
}

#[test]
fn layout_of_a_normal_frame() {
    let frame = Rect { x: 0, y: 0, width: 100, height: 40 };
    let layout = create_layout(frame, 3);
    assert_eq!(layout.col_max_width, 46);
    assert_eq!(layout.bar_width, 11);
    assert_eq!(layout.details_area, Rect { x: 0, y: 0, width: 50, height: 8 });
    assert_eq!(layout.headers_area, Rect { x: 0, y: 8, width: 50, height: 29 });
    assert_eq!(layout.chart_area, Rect { x: 50, y: 0, width: 50, height: 37 });
    assert_eq!(layout.stats_area, Rect { x: 0, y: 37, width: 100, height: 3 });
    assert_eq!(layout.headers_area.inner_width(), 48);
}

#[test]
fn layout_of_an_empty_frame_does_not_panic() {
    let frame = Rect { x: 0, y: 0, width: 0, height: 0 };
    let layout = create_layout(frame, u16::MAX);
    assert_eq!(layout.col_max_width, 0);
    assert_eq!(layout.bar_width, 0);
    assert_eq!(layout.details_area, Rect { x: 0, y: 0, width: 0, height: 0 });
    assert_eq!(layout.stats_area, Rect { x: 0, y: 0, width: 0, height: 0 });
    assert_eq!(layout.headers_area.inner_width(), 0);
}

#[test]
fn layout_of_a_short_frame_shrinks_details() {
    let frame = Rect { x: 0, y: 0, width: 20, height: 6 };
    let layout = create_layout(frame, 4);
    assert_eq!(layout.details_area, Rect { x: 0, y: 0, width: 10, height: 3 });
    assert_eq!(layout.headers_area, Rect { x: 0, y: 3, width: 10, height: 0 });
    assert_eq!(layout.stats_area, Rect { x: 0, y: 3, width: 20, height: 3 });
}

#[test]
fn details_and_header_lines() {
    let app = App::new(
        args_with(vec!["Accept: text/html".to_string(), "a-very-long-header: x".to_string()], 12),
        0,
    );
    let details = app.details_lines();
    assert_eq!(details[0], " Host: http://localhost:8080/health");
    assert_eq!(details[1], " Method: GET");
    assert_eq!(details[2], " Concurrent Requests: 12");
    assert_eq!(details[3], " Headers: ");
    let lines = app.header_lines(20);
    assert_eq!(lines[0], format!(" > {:20}", "Accept: text/html"));
    assert_eq!(lines[0], " > Accept: text/html   ");
    assert_eq!(lines[1], " > a-very-long-header: x");
    assert_eq!(app.header_frame_height(), 3);
}

#[test]
fn log_without_header_is_rejected() {
    assert!(parse_csv("").is_none());
    assert!(parse_csv("h,200,1, ok\n").is_none());
    assert!(parse_csv("host,status_code,time_millis,body\nnot a row\n").is_none());
}

#[test]
fn empty_log_reads_back_empty() {
    let text = csv_text("h", &vec![]);
    assert_eq!(text, "host,status_code,time_millis,body\n");
    assert_eq!(parse_csv(&text).unwrap().len(), 0);
}

#[test]
fn log_rows_keep_arrival_order() {
    let results = vec![
        Results { response_code: 302, elapsed: 1, body: "x, y".to_string() },
        Results { response_code: 201, elapsed: 99, body: String::new() },
    ];
    let rows = parse_csv(&csv_text("example.org", &results)).unwrap();
    assert_eq!(rows.len(), 2);
    assert_eq!((rows[0].response_code, rows[0].elapsed), (302, 1));
    assert_eq!(rows[0].body, "x, y");
    assert_eq!((rows[1].response_code, rows[1].elapsed), (201, 99));
}
