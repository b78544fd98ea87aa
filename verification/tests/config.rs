use lsb_stego::config::ActionType;
use lsb_stego::config::Config;

fn args_of(parts: &[&str]) -> Vec<String> {
    parts.iter().map(|s| s.to_string()).collect()
}

#[test]
fn build_read() {
    let args = args_of(&["prog", "-r", "ferris.png"]);
    let c = Config::build(&args).unwrap();
    assert_eq!(c.action, ActionType::Read);
    assert_eq!(c.file_path, "ferris.png");
    assert!(c.secret.is_none());
}

#[test]
fn build_write() {
    let args = args_of(&["prog", "-w", "ferris.png", "very secret token"]);
    let c = Config::build(&args).unwrap();
    assert_eq!(c.action, ActionType::Write);
    assert_eq!(c.file_path, "ferris.png");
    assert_eq!(c.secret.as_deref(), Some("very secret token"));
}

#[test]
fn build_rejects_unknown_flag() {
    let args = args_of(&["prog", "-x", "ferris.png"]);
    let e = Config::build(&args).unwrap_err();
    assert_eq!(e, "No read/write (-r/-w) flag on position '1'.");
}

#[test]
fn build_read_needs_a_path() {
    let args = args_of(&["prog", "-r"]);
    let e = Config::build(&args).unwrap_err();
    assert_eq!(e, "Not enough arguments");
}

#[test]
fn build_write_needs_a_secret() {
    let args = args_of(&["prog", "-w", "ferris.png"]);
    let e = Config::build(&args).unwrap_err();
    assert_eq!(e, "Not enough arguments");
}
