use dose_response::replay::{
    command_from_str, log_command, log_seed, parse_replay, parse_seed, Command, ReplayError,
};

const ALL: [Command; 11] = [
    Command::N,
    Command::E,
    Command::S,
    Command::W,
    Command::NE,
    Command::NW,
    Command::SE,
    Command::SW,
    Command::UseFood,
    Command::UseDose,
    Command::UseStrongDose,
];

#[test]
fn every_command_is_found_again_by_its_name() {
    for c in ALL {
        assert_eq!(Command::from_str(c.to_str()), Some(c));
        assert_eq!(command_from_str(c.to_str()), c);
        assert_eq!(Command::from_bytes(&c.to_bytes()), Some(c));
        assert_eq!(c.to_bytes(), c.to_str().as_bytes().to_vec());
    }
    assert_eq!(Command::UseStrongDose.to_str(), "UseStrongDose");
    assert_eq!(Command::NW.to_str(), "NW");
}

#[test]
fn unknown_names_are_no_commands() {
    for name in ["", "n", "North", "NEE", " N", "N ", "UseFoo", "UseDoses", "Quit"] {
        assert_eq!(Command::from_str(name), None);
        assert_eq!(Command::from_bytes(&name.as_bytes().to_vec()), None);
    }
}

#[test]
fn log_is_seed_then_one_command_per_line() {
    let mut log = Vec::new();
    log_seed(&mut log, 4242);
    log_command(&mut log, Command::N);
    log_command(&mut log, Command::UseStrongDose);
    log_command(&mut log, Command::SW);
    assert_eq!(String::from_utf8(log).unwrap(), "4242\nN\nUseStrongDose\nSW\n");
}

#[test]
fn seeds_are_written_as_decimal_numbers() {
    for (seed, text) in [(0u32, "0\n"), (7, "7\n"), (10, "10\n"), (1009, "1009\n"), (u32::MAX, "4294967295\n")] {
        let mut log = b"x".to_vec();
        log_seed(&mut log, seed);
        assert_eq!(String::from_utf8(log).unwrap(), format!("x{}", text));
    }
}

#[test]
fn replay_round_trip() {
    let commands = vec![
        Command::E, Command::E, Command::UseFood, Command::NW, Command::UseDose, Command::S,
        Command::UseStrongDose, Command::W, Command::NE, Command::SE, Command::SW, Command::N,
    ];
    for seed in [0u32, 1, 99, 123456789, u32::MAX] {
        let mut log = Vec::new();
        log_seed(&mut log, seed);
        for c in &commands {
            log_command(&mut log, *c);
        }
        let replay = parse_replay(&log).expect("a replay");
        assert_eq!(replay.seed, seed);
        assert_eq!(replay.commands, commands);
    }
}

#[test]
fn a_log_without_commands_is_a_replay_without_commands() {
    let replay = parse_replay(&b"17\n".to_vec()).unwrap();
    assert_eq!((replay.seed, replay.commands.len()), (17, 0));
    let replay = parse_replay(&b"17".to_vec()).unwrap();
    assert_eq!((replay.seed, replay.commands.len()), (17, 0));
}

#[test]
fn carriage_returns_and_a_missing_last_newline_are_tolerated() {
    let replay = parse_replay(&b"0042\r\nN\r\nSE".to_vec()).unwrap();
    assert_eq!(replay.seed, 42);
    assert_eq!(replay.commands, vec![Command::N, Command::SE]);
}

#[test]
fn malformed_logs_are_refused() {
    let refused = |text: &str| parse_replay(&text.as_bytes().to_vec()).unwrap_err();
    assert_eq!(refused(""), ReplayError::Empty);
    assert_eq!(refused("\nN\n"), ReplayError::MalformedSeed);
    assert_eq!(refused("seed\nN\n"), ReplayError::MalformedSeed);
    assert_eq!(refused("-1\nN\n"), ReplayError::MalformedSeed);
    assert_eq!(refused("+1\nN\n"), ReplayError::MalformedSeed);
    assert_eq!(refused("12 \nN\n"), ReplayError::MalformedSeed);
    assert_eq!(refused("4294967296\nN\n"), ReplayError::MalformedSeed);
    assert_eq!(refused("99999999999999999999999999\n"), ReplayError::MalformedSeed);
    assert_eq!(refused("1\nN\nX\nS\n"), ReplayError::UnknownCommand(2));
    assert_eq!(refused("1\n\nN\n"), ReplayError::UnknownCommand(1));
    assert_eq!(refused("1\nN\nS\nuseFood"), ReplayError::UnknownCommand(3));
}

#[test]
fn seed_lines() {
    assert_eq!(parse_seed(&b"0".to_vec()), Some(0));
    assert_eq!(parse_seed(&b"000123".to_vec()), Some(123));
    assert_eq!(parse_seed(&b"4294967295".to_vec()), Some(u32::MAX));
    assert_eq!(parse_seed(&b"4294967296".to_vec()), None);
    assert_eq!(parse_seed(&b"".to_vec()), None);
    assert_eq!(parse_seed(&b"12a".to_vec()), None);
    assert_eq!(parse_seed(&b"1.5".to_vec()), None);
}
