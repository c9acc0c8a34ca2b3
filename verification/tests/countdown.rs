use countdown_server::protocol::{
    alarm_payload, clear_color, clear_prev_line, render_line, set_red, status_line,
    usage_message, Countdown,
};
use countdown_server::request::parse_request;
use countdown_server::total_seconds;

fn collect_lines(total: u32) -> Vec<String> {
    let mut countdown = Countdown::new(total);
    let mut lines: Vec<String> = Vec::new();
    while let Some(line) = countdown.next_line() {
        lines.push(line);
    }
    lines
}

#[test]
fn status_line_is_fixed() {
    assert_eq!(status_line(), "HTTP/1.1 200 OK\r\n\r\n");
}

#[test]
fn usage_message_names_the_format() {
    assert_eq!(
        usage_message(),
        "HTTP/1.1 200 OK\r\n\r\nUsage: curl ip:8080/<hours>:<minutes>:<seconds>\r\nExample curl ip:8080/1:15:0\r\n"
    );
}

#[test]
fn alarm_payload_rings_the_bell() {
    let payload = alarm_payload();
    assert!(payload.starts_with(clear_prev_line()));
    let rest = &payload[clear_prev_line().len()..];
    assert!(rest.starts_with(set_red()));
    assert!(payload.contains("AAA   LL"));
    assert!(payload.contains(clear_color()));
    assert!(payload.ends_with("\x07\n"));
}

#[test]
fn countdown_emits_total_plus_one_lines() {
    assert_eq!(collect_lines(10).len(), 11);
    assert_eq!(collect_lines(0).len(), 1);
    assert_eq!(collect_lines(60).len(), 61);
}

#[test]
fn zero_countdown_is_one_red_line() {
    let lines = collect_lines(0);
    assert_eq!(lines.len(), 1);
    assert_eq!(lines[0], format!("{}00{}\n", set_red(), clear_color()));
}

#[test]
fn full_hour_scenario() {
    let (h, m, s) = parse_request(b"GET /1:15:0 HTTP/1.1\r\n\r\n").unwrap();
    let total = total_seconds(h, m, s).unwrap();
    assert_eq!(total, 4500);
    let lines = collect_lines(total);
    assert_eq!(lines.len(), 4501);
    assert_eq!(lines[0], "01:15:00\n");
    assert_eq!(
        lines[4500],
        format!("{}{}00:00:00{}\n", clear_prev_line(), set_red(), clear_color())
    );
    for (i, line) in lines.iter().enumerate() {
        let sec = total as usize - i;
        assert_eq!(line.starts_with(clear_prev_line()), i > 0);
        assert_eq!(line.contains(set_red()), sec <= 5);
        let body = line
            .trim_start_matches(clear_prev_line())
            .trim_start_matches(set_red())
            .trim_end_matches('\n')
            .trim_end_matches(clear_color());
        assert_eq!(body.len(), 8);
    }
}

#[test]
fn width_is_fixed_by_the_total() {
    let lines = collect_lines(3600);
    assert_eq!(lines[0], "01:00:00\n");
    assert_eq!(lines[1], format!("{}00:59:59\n", clear_prev_line()));
    let lines = collect_lines(60);
    assert_eq!(lines[0], "01:00\n");
    assert_eq!(lines[1], format!("{}00:59\n", clear_prev_line()));
}

#[test]
fn red_wrap_starts_at_the_threshold() {
    let lines = collect_lines(7);
    assert_eq!(lines[0], "07\n");
    assert_eq!(lines[1], format!("{}06\n", clear_prev_line()));
    assert_eq!(
        lines[2],
        format!("{}{}05{}\n", clear_prev_line(), set_red(), clear_color())
    );
    assert_eq!(
        lines[7],
        format!("{}{}00{}\n", clear_prev_line(), set_red(), clear_color())
    );
}

#[test]
fn render_line_matches_machine() {
    let mut countdown = Countdown::new(2);
    assert_eq!(countdown.next_line().unwrap(), render_line(2, 2));
    assert_eq!(countdown.next_line().unwrap(), render_line(2, 1));
    assert_eq!(countdown.next_line().unwrap(), render_line(2, 0));
    assert_eq!(countdown.next_line(), None);
}
