use telesteller::server::AcceptBackoff;
use telesteller::Opt;

#[test]
fn backoff_doubles_up_to_a_minute_then_gives_up() {
    let mut backoff = AcceptBackoff::new();
    let delays: Vec<Option<u64>> = (0..8).map(|_| backoff.on_error()).collect();
    assert_eq!(
        delays,
        vec![Some(1), Some(2), Some(4), Some(8), Some(16), Some(32), Some(60), None]
    );
    assert_eq!(backoff.on_error(), None);
}

#[test]
fn session_capacity_defaults_to_connections() {
    let mut opt = Opt {
        addr: "127.0.0.1:18990".to_string(),
        max_connection: 40960,
        max_session: None,
        log_filter: "info".to_string(),
    };
    assert_eq!(opt.session_capacity(), 40960);
    opt.max_session = Some(10);
    assert_eq!(opt.session_capacity(), 10);
}
