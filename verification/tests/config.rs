use knockout_exclude_check::config::compile_pattern_list;
use knockout_exclude_check::config::parse_config_lines;
use knockout_exclude_check::config::parse_sources;
use knockout_exclude_check::config::trim_source;
use knockout_exclude_check::rsync_pattern::PatternError;

#[test]
fn blank_and_comment_lines_are_dropped() {
    let data = b"foo\n\n# comment\nbar\n";
    let lines = parse_config_lines(data);
    assert_eq!(lines, vec![b"foo".to_vec(), b"bar".to_vec()]);
}

#[test]
fn last_line_without_newline_is_kept() {
    let lines = parse_config_lines(b"one\ntwo");
    assert_eq!(lines, vec![b"one".to_vec(), b"two".to_vec()]);
}

#[test]
fn source_entries_lose_leading_and_trailing_slashes() {
    assert_eq!(trim_source(b"/home/user/"), b"home/user".to_vec());
    assert_eq!(trim_source(b"//srv//data//"), b"srv//data".to_vec());
    assert_eq!(trim_source(b"/"), b"".to_vec());
    assert_eq!(trim_source(b"plain"), b"plain".to_vec());
}

#[test]
fn sources_are_split_and_trimmed() {
    let sources = parse_sources(b"/home/\n# skip\n/var/log\n");
    assert_eq!(sources, vec![b"home".to_vec(), b"var/log".to_vec()]);
}

#[test]
fn pattern_lists_compile_in_order() {
    let lines = vec![b"*.log".to_vec(), b"/tmp/".to_vec()];
    let pats = compile_pattern_list(&lines).unwrap();
    assert_eq!(pats.len(), 2);
    assert_eq!(pats[0].pattern.get_original_form(), b"*.log");
    assert_eq!(pats[1].pattern.get_original_form(), b"/tmp/");
    assert!(!pats[0].seen && !pats[1].seen);
}

#[test]
fn first_malformed_pattern_fails_the_list() {
    let lines = vec![b"fine".to_vec(), b"bad[".to_vec(), b"also\\".to_vec()];
    assert_eq!(compile_pattern_list(&lines).unwrap_err(), PatternError::UnterminatedSet);
}
