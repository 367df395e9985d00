use putnotif::clock::Moment;
use putnotif::config::Config;
use putnotif::limiter::RateWindow;
use putnotif::relay::{Relay, Verdict};

const SECOND: u128 = 1_000_000_000;

fn settings() -> Config {
    Config::with_defaults("stdout".to_string(), "prv".to_string(), "host1".to_string())
}

fn prefix(time: u64) -> Vec<u8> {
    format!("PUTNOTIF host=host1 severity=okay time={} plugin=stdout type=prv message=\"", time)
        .into_bytes()
}

fn send(relay: &mut Relay, line: &[u8], time: u64) -> Vec<Vec<u8>> {
    let messages = relay.emit(line, time);
    relay.advance(messages.len());
    messages
}

fn framed(time: u64, inner: &[u8]) -> Vec<u8> {
    let mut message = prefix(time);
    message.extend_from_slice(inner);
    message.extend_from_slice(b"\"\n");
    message
}

#[test]
fn new_relay_starts_with_id_one_and_an_empty_window() {
    let relay = Relay::new(settings(), Moment::from_nanos(3));
    assert_eq!(relay.id, 1);
    assert_eq!(relay.window, RateWindow { start: Moment::from_nanos(3), count: 0 });
    assert_eq!(relay.config, settings());
}

#[test]
fn short_line_gives_one_message_without_header() {
    let mut relay = Relay::new(settings(), Moment::from_nanos(0));
    assert_eq!(relay.check_rate(b"hello\n", Moment::from_nanos(10)), Verdict::Accept);
    let messages = send(&mut relay, b"hello\n", 1700000000);
    assert_eq!(messages, vec![framed(1700000000, b"hello")]);
    assert_eq!(relay.id, 1);
}

#[test]
fn long_line_gives_two_messages_with_headers() {
    let mut relay = Relay::new(settings(), Moment::from_nanos(0));
    let line = vec![b'a'; 300];
    assert_eq!(relay.check_rate(&line, Moment::from_nanos(10)), Verdict::Accept);
    assert_eq!(relay.window.count, 2);
    let messages = send(&mut relay, &line, 12);
    assert_eq!(messages.len(), 2);
    let mut first = b"@1:1:2@".to_vec();
    first.extend_from_slice(&[b'a'; 245]);
    let mut second = b"@1:2:2@".to_vec();
    second.extend_from_slice(&[b'a'; 55]);
    assert_eq!(messages[0], framed(12, &first));
    assert_eq!(messages[1], framed(12, &second));
    assert_eq!(messages[0].len() - prefix(12).len() - 2 - 7, 245);
    assert_eq!(messages[1].len() - prefix(12).len() - 2 - 7, 55);
    assert_eq!(relay.id, 2);
}

#[test]
fn line_with_quotes_and_backslash_is_escaped() {
    let mut relay = Relay::new(settings(), Moment::from_nanos(0));
    let messages = send(&mut relay, b"say \"hi\"\\\n", 1);
    assert_eq!(messages, vec![framed(1, b"say \\\"hi\\\"\\\\")]);
}

#[test]
fn second_line_in_the_same_second_is_discarded() {
    let mut config = settings();
    config.limit = 1;
    config.window = 1;
    let mut relay = Relay::new(config, Moment::from_nanos(0));
    assert_eq!(relay.check_rate(b"first\n", Moment::from_nanos(100)), Verdict::Accept);
    assert_eq!(
        relay.check_rate(b"second\n", Moment::from_nanos(SECOND - 1)),
        Verdict::Discard { notice: None }
    );
    assert_eq!(relay.window.count, 2);
    assert_eq!(relay.check_rate(b"third\n", Moment::from_nanos(SECOND)), Verdict::Accept);
    assert_eq!(relay.window, RateWindow { start: Moment::from_nanos(SECOND), count: 1 });
}

#[test]
fn discarded_line_is_reported_under_verbose_settings() {
    let mut config = settings();
    config.limit = 1;
    config.window = 1;
    config.verbose = true;
    let mut relay = Relay::new(config, Moment::from_nanos(0));
    assert_eq!(relay.check_rate(b"first\n", Moment::from_nanos(100)), Verdict::Accept);
    assert_eq!(
        relay.check_rate(b"second\n", Moment::from_nanos(200)),
        Verdict::Discard { notice: Some(b"DISCARD:2/1:second\n".to_vec()) }
    );
    assert_eq!(
        relay.check_rate(b"a\0b", Moment::from_nanos(300)),
        Verdict::Discard { notice: Some(b"DISCARD:3/1:a\0b".to_vec()) }
    );
}

#[test]
fn long_line_uses_up_the_window_alone() {
    let mut config = settings();
    config.limit = 2;
    config.window = 5;
    config.max_event_length = 10;
    let mut relay = Relay::new(config, Moment::from_nanos(0));
    let line = vec![b'x'; 25];
    assert_eq!(
        relay.check_rate(&line, Moment::from_nanos(1)),
        Verdict::Discard { notice: None }
    );
    assert_eq!(relay.window.count, 3);
    assert_eq!(relay.check_rate(b"y\n", Moment::from_nanos(2)), Verdict::Discard { notice: None });
    assert_eq!(relay.window.count, 4);
    assert_eq!(relay.check_rate(b"y\n", Moment::from_nanos(5 * SECOND)), Verdict::Accept);
    assert_eq!(relay.window.count, 1);
}

#[test]
fn empty_line_gives_no_message_and_counts_as_nothing() {
    let mut config = settings();
    config.limit = 1;
    let mut relay = Relay::new(config, Moment::from_nanos(0));
    assert_eq!(relay.check_rate(b"\n", Moment::from_nanos(1)), Verdict::Accept);
    assert_eq!(relay.window.count, 0);
    assert_eq!(send(&mut relay, b"\n", 1), Vec::<Vec<u8>>::new());
    assert_eq!(send(&mut relay, b"\0hidden\n", 1), Vec::<Vec<u8>>::new());
    assert_eq!(send(&mut relay, b"", 1), Vec::<Vec<u8>>::new());
    assert_eq!(relay.id, 1);
    assert_eq!(relay.check_rate(b"one\n", Moment::from_nanos(2)), Verdict::Accept);
    assert_eq!(relay.check_rate(b"two\n", Moment::from_nanos(3)), Verdict::Discard { notice: None });
    assert_eq!(relay.check_rate(b"\n", Moment::from_nanos(4)), Verdict::Discard { notice: None });
    assert_eq!(relay.window.count, 2);
}

#[test]
fn content_ends_at_a_nul() {
    let mut relay = Relay::new(settings(), Moment::from_nanos(0));
    assert_eq!(send(&mut relay, b"shown\0hidden\n", 9), vec![framed(9, b"shown")]);
}

#[test]
fn line_without_terminator_is_emitted_whole() {
    let mut relay = Relay::new(settings(), Moment::from_nanos(0));
    assert_eq!(send(&mut relay, b"last", 9), vec![framed(9, b"last")]);
}

#[test]
fn carriage_return_cuts_the_body_of_its_fragment_only() {
    let mut config = settings();
    config.max_event_length = 4;
    let mut relay = Relay::new(config, Moment::from_nanos(0));
    let messages = send(&mut relay, b"ab\rcdefgh\n", 7);
    assert_eq!(
        messages,
        vec![framed(7, b"@1:1:3@ab"), framed(7, b"@1:2:3@defg"), framed(7, b"@1:3:3@h")]
    );
}

#[test]
fn fragments_hold_raw_bytes() {
    let mut config = settings();
    config.max_event_length = 3;
    let mut relay = Relay::new(config, Moment::from_nanos(0));
    let line = [0xe2, 0x9c, 0x93, 0xe2, 0x9c];
    let messages = send(&mut relay, &line, 7);
    let mut first = b"@1:1:2@".to_vec();
    first.extend_from_slice(&[0xe2, 0x9c, 0x93]);
    let mut second = b"@1:2:2@".to_vec();
    second.extend_from_slice(&[0xe2, 0x9c]);
    assert_eq!(messages, vec![framed(7, &first), framed(7, &second)]);
}

#[test]
fn correlation_id_moves_on_only_after_a_cut_line() {
    let mut config = settings();
    config.max_event_length = 2;
    config.max_event_id = 3;
    let mut relay = Relay::new(config, Moment::from_nanos(0));
    let mut seen = Vec::new();
    for n in 1..=8u64 {
        send(&mut relay, b"x\n", 0);
        send(&mut relay, b"\n", 0);
        send(&mut relay, b"xy\n", 0);
        seen.push(relay.id);
        let messages = send(&mut relay, b"abc\n", 0);
        assert_eq!(messages[0], framed(0, format!("@{}:1:2@ab", (n - 1) % 3 + 1).as_bytes()));
        assert_eq!(messages[1], framed(0, format!("@{}:2:2@c", (n - 1) % 3 + 1).as_bytes()));
        assert_eq!(relay.id, n % 3 + 1);
    }
    assert_eq!(seen, vec![1, 2, 3, 1, 2, 3, 1, 2]);
}

#[test]
fn correlation_id_with_a_single_id_stays_one() {
    let mut config = settings();
    config.max_event_length = 1;
    config.max_event_id = 1;
    let mut relay = Relay::new(config, Moment::from_nanos(0));
    for _ in 0..3 {
        let messages = send(&mut relay, b"ab", 0);
        assert_eq!(messages, vec![framed(0, b"@1:1:2@a"), framed(0, b"@1:2:2@b")]);
        assert_eq!(relay.id, 1);
    }
}

#[test]
fn correlation_id_wraps_after_the_default_largest() {
    let mut relay = Relay::new(settings(), Moment::from_nanos(0));
    let line = vec![b'z'; 246];
    for n in 1..=99u64 {
        assert_eq!(relay.id, n);
        send(&mut relay, &line, 0);
    }
    assert_eq!(relay.id, 1);
}

#[test]
fn advance_leaves_the_window_and_check_rate_leaves_the_id() {
    let mut config = settings();
    config.max_event_length = 1;
    let mut relay = Relay::new(config, Moment::from_nanos(0));
    relay.check_rate(b"abc", Moment::from_nanos(5));
    let window = relay.window;
    assert_eq!(window.count, 3);
    assert_eq!(relay.id, 1);
    send(&mut relay, b"abc", 0);
    assert_eq!(relay.window, window);
    assert_eq!(relay.id, 2);
    relay.check_rate(b"abc", Moment::from_nanos(6));
    assert_eq!(relay.id, 2);
}

#[test]
fn emit_alone_changes_nothing() {
    let mut config = settings();
    config.max_event_length = 2;
    let relay = Relay::new(config, Moment::from_nanos(0));
    let first = relay.emit(b"abc\n", 4);
    let second = relay.emit(b"abc\n", 4);
    assert_eq!(first, vec![framed(4, b"@1:1:2@ab"), framed(4, b"@1:2:2@c")]);
    assert_eq!(first, second);
    assert_eq!(relay.id, 1);
}

#[test]
fn advance_moves_on_after_more_than_one_message() {
    let mut config = settings();
    config.max_event_id = 3;
    let mut relay = Relay::new(config, Moment::from_nanos(0));
    relay.advance(0);
    assert_eq!(relay.id, 1);
    relay.advance(1);
    assert_eq!(relay.id, 1);
    relay.advance(2);
    assert_eq!(relay.id, 2);
    relay.advance(usize::MAX);
    assert_eq!(relay.id, 3);
    relay.advance(1);
    assert_eq!(relay.id, 3);
    relay.advance(5);
    assert_eq!(relay.id, 1);
}

#[test]
fn lines_of_one_fragment_need_no_correlation_id() {
    let mut config = settings();
    config.max_event_id = 0;
    let mut relay = Relay::new(config, Moment::from_nanos(0));
    for n in 0..3u64 {
        assert_eq!(relay.check_rate(b"short\n", Moment::from_nanos(1)), Verdict::Accept);
        assert_eq!(send(&mut relay, b"short\n", n), vec![framed(n, b"short")]);
        assert_eq!(send(&mut relay, b"\n", n), Vec::<Vec<u8>>::new());
        assert_eq!(relay.id, 1);
    }
    let line = vec![b'a'; 246];
    let messages = relay.emit(&line, 0);
    assert_eq!(messages.len(), 2);
    assert!(messages[0].starts_with(&framed(0, b"@1:1:2@a")[..prefix(0).len() + 8]));
}

#[test]
fn fits_tells_whether_the_count_has_room() {
    let mut config = settings();
    config.max_event_length = 1;
    config.window = 10;
    let mut relay = Relay::new(config, Moment::from_nanos(0));
    assert!(relay.fits(b"abc", Moment::from_nanos(0)));
    relay.window.count = usize::MAX - 2;
    assert!(relay.fits(b"ab", Moment::from_nanos(1)));
    assert!(relay.fits(b"ab\n", Moment::from_nanos(1)));
    assert!(!relay.fits(b"abc", Moment::from_nanos(1)));
    assert!(relay.fits(b"abc", Moment::from_nanos(10 * SECOND)));
    assert_eq!(relay.check_rate(b"ab", Moment::from_nanos(1)), Verdict::Accept);
    assert_eq!(relay.window.count, usize::MAX);
}
