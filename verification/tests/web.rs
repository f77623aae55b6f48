//! The command line and the web server's decisions.
use steroidsoundboard::args::{
    listen_address, local_url, parse_args, serves_network, tick, url, Purpose,
};
use steroidsoundboard::web::{asset_name, relay, static_file, Heard, Relay};

fn args(list: &[&str]) -> Vec<String> {
    list.iter().map(|s| s.to_string()).collect()
}

#[test]
fn command_line_is_read_from_left_to_right() {
    let p = parse_args(&args(&[]));
    assert_eq!((p.args.bind.as_str(), p.args.port, p.args.open_browser), ("0.0.0.0", 8420, true));
    assert_eq!((p.purpose, p.unknown.len()), (Purpose::Run, 0));

    let p = parse_args(&args(&["--port", "9000", "--local", "--headless"]));
    assert_eq!((p.args.bind.as_str(), p.args.port, p.args.open_browser), ("127.0.0.1", 9000, false));

    let p = parse_args(&args(&["--local", "--bind", "10.0.0.1", "--no-browser"]));
    assert_eq!((p.args.bind.as_str(), p.args.port, p.args.open_browser), ("10.0.0.1", 8420, false));

    // A port that is none is passed over with its argument, and so is one that is missing.
    let p = parse_args(&args(&["--port", "--local", "x", "--port"]));
    assert_eq!((p.args.bind.as_str(), p.args.port), ("0.0.0.0", 8420));
    assert_eq!(p.unknown, vec!["x"]);
    let p = parse_args(&args(&["--bind"]));
    assert_eq!(p.args.bind, "0.0.0.0");
}

#[test]
fn version_and_help_end_the_reading() {
    for (arg, purpose) in [
        ("--version", Purpose::Version),
        ("-V", Purpose::Version),
        ("--help", Purpose::Help),
        ("-h", Purpose::Help),
    ] {
        let p = parse_args(&args(&["a", arg, "b", "--local"]));
        assert_eq!(p.purpose, purpose);
        assert_eq!(p.unknown, vec!["a"]);
        assert_eq!(p.args.bind, "0.0.0.0");
    }
}

#[test]
fn any_port_can_be_asked_for() {
    for port in [0u16, 1, 80, 8420, 65535] {
        assert_eq!(parse_args(&args(&["--port", &port.to_string()])).args.port, port);
    }
}

#[test]
fn addresses_follow_from_the_arguments() {
    assert_eq!(listen_address("0.0.0.0", 8420), "0.0.0.0:8420");
    assert_eq!(local_url(80), "http://127.0.0.1:80");
    assert_eq!(url("192.168.1.2", 8420), "http://192.168.1.2:8420");
    assert!(serves_network("0.0.0.0"));
    assert!(!serves_network("127.0.0.1"));
}

#[test]
fn chances_to_save_come_regularly() {
    let mut n = 0;
    let mut saves = Vec::new();
    for k in 1..=120 {
        let (next, save) = tick(n);
        n = next;
        if save {
            saves.push(k);
        }
    }
    assert_eq!(saves, vec![40, 80, 120]);
    assert_eq!(tick(u32::MAX), (0, true));
}

#[test]
fn files_are_found_by_path() {
    assert_eq!(asset_name("/"), "index.html");
    assert_eq!(asset_name(""), "index.html");
    assert_eq!(asset_name("///app.js"), "app.js");
    assert_eq!(asset_name("/a/b.css"), "a/b.css");
}

#[test]
fn files_are_served_with_their_type() {
    let s = static_file("/app.js", true, true).unwrap();
    assert_eq!((s.name.as_str(), s.media_type.as_str()), ("app.js", "text/javascript"));
    let s = static_file("/style.css", true, false).unwrap();
    assert_eq!((s.name.as_str(), s.media_type.as_str()), ("style.css", "text/css"));
    let s = static_file("/LICENSE", true, false).unwrap();
    assert_eq!((s.name.as_str(), s.media_type.as_str()), ("LICENSE", "application/octet-stream"));
    // What is not there is the front page.
    let s = static_file("/board/7", false, true).unwrap();
    assert_eq!((s.name.as_str(), s.media_type.as_str()), ("index.html", "text/html"));
    assert!(static_file("/board/7", false, false).is_none());
}

#[test]
fn slow_clients_go_on_with_what_comes_next() {
    assert_eq!(relay(Heard::Event), Relay::Send);
    assert_eq!(relay(Heard::Lagged), Relay::Skip);
    assert_eq!(relay(Heard::Closed), Relay::Stop);
}
