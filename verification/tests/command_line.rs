use rune::cli::{arguments_from_words, command_line_args, resolve_cd, CdTarget, OperateMode, PlaybackMode};

#[test]
fn playback_mode_names_ignore_case() {
    assert_eq!(PlaybackMode::from_str("Shuffle"), Ok(PlaybackMode::Shuffle));
    assert_eq!(PlaybackMode::from_str("REPEATONE"), Ok(PlaybackMode::RepeatOne));
    assert_eq!(PlaybackMode::from_str("repeatAll"), Ok(PlaybackMode::RepeatAll));
    assert_eq!(PlaybackMode::from_str("sequential"), Ok(PlaybackMode::Sequential));
    assert_eq!(PlaybackMode::from_str("NoChange"), Ok(PlaybackMode::NoChange));
}

#[test]
fn unknown_playback_mode_is_refused() {
    assert_eq!(
        PlaybackMode::from_str("Bogus"),
        Err("Unknown playback mode: Bogus".to_string())
    );
    assert_eq!(
        PlaybackMode::from_str("repeat one"),
        Err("Unknown playback mode: repeat one".to_string())
    );
}

#[test]
fn playback_mode_parses_through_from_str_trait() {
    let mode: PlaybackMode = "SHUFFLE".parse().unwrap();
    assert_eq!(mode, PlaybackMode::Shuffle);
    assert!("x".parse::<PlaybackMode>().is_err());
}

#[test]
fn playback_mode_codes() {
    assert_eq!(u32::from(PlaybackMode::Sequential), 0);
    assert_eq!(u32::from(PlaybackMode::RepeatOne), 1);
    assert_eq!(u32::from(PlaybackMode::RepeatAll), 2);
    assert_eq!(u32::from(PlaybackMode::Shuffle), 3);
    assert_eq!(u32::from(PlaybackMode::NoChange), 99);
}

#[test]
fn operate_mode_names_and_aliases() {
    assert_eq!(OperateMode::from_str("append"), Ok(OperateMode::AppendToEnd));
    assert_eq!(OperateMode::from_str("AppendToEnd"), Ok(OperateMode::AppendToEnd));
    assert_eq!(OperateMode::from_str("Next"), Ok(OperateMode::PlayNext));
    assert_eq!(OperateMode::from_str("playnext"), Ok(OperateMode::PlayNext));
    assert_eq!(OperateMode::from_str("REPLACE"), Ok(OperateMode::Replace));
    let mode: OperateMode = "next".parse().unwrap();
    assert_eq!(mode, OperateMode::PlayNext);
}

#[test]
fn unknown_operate_mode_is_refused() {
    assert_eq!(
        OperateMode::from_str("prepend"),
        Err("Unknown operate mode: prepend".to_string())
    );
}

#[test]
fn operate_mode_codes() {
    assert_eq!(i32::from(OperateMode::AppendToEnd), 0);
    assert_eq!(i32::from(OperateMode::PlayNext), 1);
    assert_eq!(i32::from(OperateMode::Replace), 2);
}

#[test]
fn command_line_is_split_like_a_shell() {
    assert_eq!(
        command_line_args("cd 'My Music' --id"),
        vec!["".to_string(), "cd".to_string(), "My Music".to_string(), "--id".to_string()]
    );
    assert_eq!(
        command_line_args("opq  \"a b\"\tc"),
        vec!["".to_string(), "opq".to_string(), "a b".to_string(), "c".to_string()]
    );
}

#[test]
fn broken_quoting_gives_no_words() {
    assert_eq!(command_line_args("cd 'unterminated"), vec!["".to_string()]);
}

#[test]
fn empty_line_gives_program_name_only() {
    assert_eq!(command_line_args(""), vec!["".to_string()]);
    assert_eq!(command_line_args("   "), vec!["".to_string()]);
}

#[test]
fn cd_targets() {
    assert!(matches!(resolve_cd(".", false), CdTarget::Stay));
    assert!(matches!(resolve_cd("..", false), CdTarget::Parent));
    assert!(matches!(resolve_cd("..", true), CdTarget::Stay));
    assert!(matches!(resolve_cd("/", false), CdTarget::Root));
    match resolve_cd("Artists", true) {
        CdTarget::Join(p) => assert_eq!(p, "Artists"),
        other => panic!("unexpected target {:?}", other),
    }
}

#[test]
fn words_become_arguments_after_empty_program_name() {
    assert_eq!(
        arguments_from_words(Some(vec!["ls".to_string(), "-l".to_string()])),
        vec!["".to_string(), "ls".to_string(), "-l".to_string()]
    );
    assert_eq!(arguments_from_words(None), vec!["".to_string()]);
}

#[test]
fn modes_read_from_lowercased_text() {
    assert_eq!(PlaybackMode::from_lowercase("repeatall", "RepeatAll"), Ok(PlaybackMode::RepeatAll));
    assert_eq!(
        PlaybackMode::from_lowercase("nope", "NOPE"),
        Err("Unknown playback mode: NOPE".to_string())
    );
    assert_eq!(OperateMode::from_lowercase("replace", "Replace"), Ok(OperateMode::Replace));
    assert_eq!(
        OperateMode::from_lowercase("Replace", "Replace"),
        Err("Unknown operate mode: Replace".to_string())
    );
}
