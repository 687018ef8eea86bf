use fsvfs::cli::{Cli, CliError, Command};

const MOUNTPOINT: &str = "/darksouls";
const ARCHIVES: [&str; 4] = [
    "Game/Data1.bdt",
    "Game/Data1.bhd",
    "Game/Data2.bdt",
    "Game/Data2.bhd",
];

fn args(list: &[&str]) -> Vec<String> {
    list.iter().map(|s| s.to_string()).collect()
}

#[test]
fn dvdbnd_args() {
    let cli = Cli::parse_from(args(&[
        "fsvfs",
        "dvdbnd",
        "-m",
        MOUNTPOINT,
        ARCHIVES[0],
        ARCHIVES[1],
        ARCHIVES[2],
        ARCHIVES[3],
    ]))
    .unwrap();

    #[allow(irrefutable_let_patterns)]
    let Command::Dvdbnd(command) = cli.command else {
        panic!("Wrong variant, expected `Dvdbnd`");
    };

    assert_eq!(command.mountpoint, MOUNTPOINT);
    assert_eq!(command.dict, None);
    assert_eq!(command.keys, None);
    assert_eq!(command.cache.cache, None);
    assert_eq!(command.cache.no_cache, None);
    assert_eq!(command.archive, ARCHIVES);
}

#[test]
fn dvdbnd_args_with_dict_keys_cache() {
    let cli = Cli::parse_from(args(&[
        "fsvfs",
        "dvdbnd",
        "-m",
        MOUNTPOINT,
        "-k",
        "ds3-keys",
        "-d",
        "ds3-hashes",
        "-c",
        "my-cache",
        ARCHIVES[0],
        ARCHIVES[1],
        ARCHIVES[2],
        ARCHIVES[3],
    ]))
    .unwrap();

    #[allow(irrefutable_let_patterns)]
    let Command::Dvdbnd(command) = cli.command else {
        panic!("Wrong variant, expected `Dvdbnd`");
    };

    assert_eq!(command.mountpoint, MOUNTPOINT);
    assert_ne!(command.dict, None);
    assert_ne!(command.keys, None);
    assert_ne!(command.cache.cache, None);
    assert_eq!(command.cache.no_cache, None);
    assert_eq!(command.archive, ARCHIVES);
}

#[test]
fn cli_long_options_and_flags() {
    let cli = Cli::parse_from(args(&[
        "fsvfs",
        "dvdbnd",
        "--mountpoint",
        "Z:\\mnt",
        "--game",
        "DarkSouls_PC",
        "--no-cache",
        "--piped",
        "a.bhd5",
        "--",
        "-odd.bhd",
    ]))
    .unwrap();
    let Command::Dvdbnd(command) = cli.command;
    assert_eq!(command.mountpoint, "Z:\\mnt");
    assert_eq!(command.game.as_deref(), Some("DarkSouls_PC"));
    assert_eq!(command.cache.no_cache, Some(true));
    assert_eq!(command.piped, Some(true));
    assert_eq!(command.archive, ["a.bhd5", "-odd.bhd"]);
}

#[test]
fn cli_errors() {
    assert_eq!(Cli::parse_from(args(&["fsvfs"])).err(), Some(CliError::MissingCommand));
    assert_eq!(Cli::parse_from(args(&["fsvfs", "mount"])).err(), Some(CliError::UnknownCommand));
    assert_eq!(
        Cli::parse_from(args(&["fsvfs", "dvdbnd", "-x", "a"])).err(),
        Some(CliError::UnknownArgument)
    );
    assert_eq!(
        Cli::parse_from(args(&["fsvfs", "dvdbnd", "a", "-m"])).err(),
        Some(CliError::MissingValue)
    );
    assert_eq!(
        Cli::parse_from(args(&["fsvfs", "dvdbnd", "-m", "-k", "a"])).err(),
        Some(CliError::MissingValue)
    );
    assert_eq!(
        Cli::parse_from(args(&["fsvfs", "dvdbnd", "-m", "x", "-m", "y", "a"])).err(),
        Some(CliError::Repeated)
    );
    assert_eq!(
        Cli::parse_from(args(&["fsvfs", "dvdbnd", "a"])).err(),
        Some(CliError::MissingMountpoint)
    );
    assert_eq!(
        Cli::parse_from(args(&["fsvfs", "dvdbnd", "-m", "x"])).err(),
        Some(CliError::MissingArchive)
    );
    assert_eq!(
        Cli::parse_from(args(&["fsvfs", "dvdbnd", "-m", "x", "-c", "c", "--no-cache", "a"])).err(),
        Some(CliError::CacheConflict)
    );
}

#[test]
fn cli_values_in_the_same_argument() {
    let cli = Cli::parse_from(args(&[
        "fsvfs",
        "dvdbnd",
        "--mountpoint=/darksouls",
        "-kds3-keys",
        "-d=ds3-hashes",
        "--cache=",
        ARCHIVES[0],
    ]))
    .unwrap();
    let Command::Dvdbnd(command) = cli.command;
    assert_eq!(command.mountpoint, MOUNTPOINT);
    assert_eq!(command.keys.as_deref(), Some("ds3-keys"));
    assert_eq!(command.dict.as_deref(), Some("ds3-hashes"));
    assert_eq!(command.cache.cache.as_deref(), Some(""));
    assert_eq!(command.archive, [ARCHIVES[0]]);

    let cli = Cli::parse_from(args(&["fsvfs", "dvdbnd", "-m/x", ARCHIVES[0]])).unwrap();
    let Command::Dvdbnd(command) = cli.command;
    assert_eq!(command.mountpoint, "/x");

    assert_eq!(
        Cli::parse_from(args(&["fsvfs", "dvdbnd", "-m/x", "--mountpoint=/y", ARCHIVES[0]]))
            .unwrap_err(),
        CliError::Repeated
    );
    assert_eq!(
        Cli::parse_from(args(&["fsvfs", "dvdbnd", "-m/x", "--piped=yes", ARCHIVES[0]]))
            .unwrap_err(),
        CliError::UnknownArgument
    );
}
