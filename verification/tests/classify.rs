use knockout_exclude_check::classify::SeenRsyncPattern;
use knockout_exclude_check::classify::TestResult;
use knockout_exclude_check::classify::classify_entry;
use knockout_exclude_check::classify::classify_pre;
use knockout_exclude_check::classify::first_match;
use knockout_exclude_check::classify::sort_children;
use knockout_exclude_check::classify::unused_pattern_warnings;

fn pats(sources: &[&[u8]]) -> Vec<SeenRsyncPattern> {
    sources.iter().map(|s| SeenRsyncPattern::new(s).unwrap()).collect()
}

#[test]
fn first_match_takes_first_in_order_and_marks_it() {
    let mut ps = pats(&[b"*.log", b"foo*", b"foo"]);
    let r = first_match(b"foo", &mut ps);
    assert_eq!(r, Some(1));
    assert!(!ps[0].seen);
    assert!(ps[1].seen);
    assert!(!ps[2].seen);
}

#[test]
fn first_match_without_match_changes_nothing() {
    let mut ps = pats(&[b"*.log", b"tmp/"]);
    assert_eq!(first_match(b"src/main.rs", &mut ps), None);
    assert!(!ps[0].seen);
    assert!(!ps[1].seen);
}

#[test]
fn mount_points_are_terminal_and_consult_no_pattern() {
    let mut excludes = pats(&[b"net"]);
    let r = classify_pre(b"net/", true, &mut excludes);
    assert_eq!(r, Some(TestResult::Mount));
    assert!(!excludes[0].seen);
}

#[test]
fn excluded_entries_mark_the_pattern() {
    let mut excludes = pats(&[b"*.tmp", b"cache/"]);
    let r = classify_pre(b"work/cache/", false, &mut excludes);
    assert_eq!(r, Some(TestResult::Excluded));
    assert!(!excludes[0].seen);
    assert!(excludes[1].seen);
    assert_eq!(classify_pre(b"work/data/", false, &mut excludes), None);
}

#[test]
fn vetted_directory_discards_children() {
    let mut vetted = pats(&[b"docs/"]);
    let children = vec![(b"a".to_vec(), TestResult::UnvettedFile(3))];
    let r = classify_entry(b"docs/", true, 0, Some(children), &mut vetted);
    assert_eq!(r, TestResult::FullyVetted);
    assert!(vetted[0].seen);
}

#[test]
fn unvetted_directory_keeps_children_sorted_by_name() {
    let mut vetted = pats(&[b"docs/"]);
    let children = vec![
        (b"zeta".to_vec(), TestResult::UnvettedFile(1)),
        (b"alpha".to_vec(), TestResult::Excluded),
        (b"mid".to_vec(), TestResult::Mount),
    ];
    let r = classify_entry(b"src/", true, 0, Some(children), &mut vetted);
    match r {
        TestResult::UnvettedDirectory(cs) => {
            let names: Vec<&[u8]> = cs.iter().map(|c| c.0.as_slice()).collect();
            assert_eq!(names, vec![&b"alpha"[..], &b"mid"[..], &b"zeta"[..]]);
        },
        other => panic!("expected an unvetted directory, got {:?}", other),
    }
    assert!(!vetted[0].seen);
}

#[test]
fn listing_failure_is_an_error_directory_and_skips_vetting() {
    let mut vetted = pats(&[b"broken/"]);
    let r = classify_entry(b"broken/", true, 0, None, &mut vetted);
    assert_eq!(r, TestResult::ErrorDirectory);
    assert!(!vetted[0].seen);
}

#[test]
fn unvetted_file_keeps_its_size() {
    let mut vetted = pats(&[b"*.pdf"]);
    let r = classify_entry(b"notes.txt", false, 1234, None, &mut vetted);
    assert_eq!(r, TestResult::UnvettedFile(1234));
    let r2 = classify_entry(b"paper.pdf", false, 99, None, &mut vetted);
    assert_eq!(r2, TestResult::FullyVetted);
    assert!(vetted[0].seen);
}

#[test]
fn sort_children_is_stable_for_equal_names() {
    let cs = vec![
        (b"dup".to_vec(), TestResult::UnvettedFile(1)),
        (b"abc".to_vec(), TestResult::UnvettedFile(2)),
        (b"dup".to_vec(), TestResult::UnvettedFile(3)),
    ];
    let r = sort_children(cs);
    assert_eq!(r[0], (b"abc".to_vec(), TestResult::UnvettedFile(2)));
    assert_eq!(r[1], (b"dup".to_vec(), TestResult::UnvettedFile(1)));
    assert_eq!(r[2], (b"dup".to_vec(), TestResult::UnvettedFile(3)));
}

#[test]
fn unused_patterns_are_reported_and_only_they() {
    let mut excludes = pats(&[b"hit", b"miss"]);
    assert_eq!(first_match(b"hit", &mut excludes), Some(0));
    let mut errors: Vec<u8> = b"pre:".to_vec();
    unused_pattern_warnings(b"WARNING: unused `excludes` pattern:", &excludes, &mut errors);
    assert_eq!(
        errors,
        b"pre:WARNING: unused `excludes` pattern:miss\n".to_vec()
    );
    // After the second pattern matches too, nothing is reported.
    assert_eq!(first_match(b"some/miss", &mut excludes), Some(1));
    let mut errors2: Vec<u8> = Vec::new();
    unused_pattern_warnings(b"WARNING: unused `excludes` pattern:", &excludes, &mut errors2);
    assert!(errors2.is_empty());
}
