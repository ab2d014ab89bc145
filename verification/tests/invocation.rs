use nodetool::cli::{mode, Mode, DEFAULT_ADDRESS, USAGE};

fn mode_of(args: &[&str]) -> Result<Mode, &'static str> {
    let args: Vec<String> = args.iter().map(|arg| arg.to_string()).collect();
    mode(&args)
}

fn ui_over(file: Option<&str>, address: &str) -> Result<Mode, &'static str> {
    Ok(Mode::Ui {
        file: file.map(str::to_owned),
        address: address.to_owned(),
    })
}

#[test]
fn the_invocations_parse() {
    assert_eq!(mode_of(&["g.yml"]), Ok(Mode::Headless("g.yml".into())));
    assert_eq!(mode_of(&["--ui"]), ui_over(None, DEFAULT_ADDRESS));
    assert_eq!(mode_of(&["--ui", "g.yml"]), ui_over(Some("g.yml"), DEFAULT_ADDRESS));
}

#[test]
fn an_address_replaces_the_default_on_either_side_of_the_file() {
    assert_eq!(mode_of(&["--ui", "--address", "127.0.0.1:0"]), ui_over(None, "127.0.0.1:0"));
    assert_eq!(
        mode_of(&["--ui", "--address", "127.0.0.1:9000", "g.yml"]),
        ui_over(Some("g.yml"), "127.0.0.1:9000")
    );
    assert_eq!(
        mode_of(&["--ui", "g.yml", "--address", "127.0.0.1:9000"]),
        ui_over(Some("g.yml"), "127.0.0.1:9000")
    );
}

#[test]
fn a_bare_invocation_and_a_doubled_argument_are_usage_errors() {
    assert_eq!(mode_of(&[]), Err(USAGE));
    assert_eq!(mode_of(&["--ui", "a.yml", "b.yml"]), Err(USAGE));
    assert_eq!(
        mode_of(&["--ui", "--address", "a:1", "--address", "b:2"]),
        Err(USAGE),
        "a second address is a usage error, not the last one quietly winning"
    );
    assert_eq!(mode_of(&["--ui", "--address"]), Err(USAGE), "the address flag needs its value");
}

#[test]
fn anything_after_the_file_is_a_usage_error_not_a_silent_mode_change() {
    assert_eq!(mode_of(&["g.yml", "--ui"]), Err(USAGE));
    assert_eq!(mode_of(&["g.yml", "extra"]), Err(USAGE));
}

#[test]
fn the_default_address_is_the_loopback() {
    assert_eq!(DEFAULT_ADDRESS, "127.0.0.1:8420");
}
