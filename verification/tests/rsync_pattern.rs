use knockout_exclude_check::rsync_pattern::PatternError;
use knockout_exclude_check::rsync_pattern::RsyncPattern;

#[test]
pub fn test() {
    let cases: &[(&[u8], &[&[u8]], &[&[u8]])] = &[
        // Match single-byte filenames
        (b"?", &[b"f", b"\x96"], &[b"fo", b"foo", b"fooo", "井".as_bytes()]),
        // Match two-byte filenames
        (b"??", &[b"fo"], &[b"f", b"\x96", b"foo", b"fooo", "井".as_bytes()]),
        // Match three-byte filenames
        (b"???", &[b"foo", "井".as_bytes()], &[b"f", b"\x96", b"fo", b"fooo"]),
        // Match four-byte filenames
        (b"????", &[b"fooo"], &[b"f", b"\x96", b"fo", b"foo", "井".as_bytes()]),
        // Test character class
        (
            b"foo_[ad-f]_version",
            &[b"foo_a_version", b"foo_d_version", b"foo_e_version", b"foo_f_version"],
            &[b"foo_b_version", b"foo_c_version", b"foo_g_version"],
        ),
        // Simple filename match
        (b"foo", &[b"foo", b"dir/foo", b"cage/dir/foo"], &[b"bar", b"foo/bar"]),
        // Match a file in a directory
        (
            b"foo/bar",
            &[b"foo/bar", b"dir/foo/bar", b"cage/dir/foo/bar"],
            &[b"bar", b"foo/bar/baz", b"cage/foo/bar/baz"],
        ),
        // Match only at the root
        (
            b"/foo/bar",
            &[b"foo/bar"],
            &[b"dir/foo/bar", b"cage/dir/foo/bar", b"bar", b"foo/bar/baz", b"cage/foo/bar/baz"],
        ),
        // Match anything underneath a directory, including itself
        (
            b"foo/***",
            &[
                b"foo/",
                b"foo/bar",
                b"foo/bar/woof",
                b"foo/baz",
                b"foo/bang",
                b"cage/foo/",
                b"cage/foo/bar",
                b"cage/foo/bar/woof",
                b"cage/foo/baz",
                b"cage/foo/bang",
            ],
            &[b"foo", b"cage/foo"],
        ),
        // Match anything underneath a directory
        (
            b"foo/**",
            &[
                b"foo/bar",
                b"foo/bar/woof",
                b"foo/baz",
                b"foo/bang",
                b"cage/foo/bar",
                b"cage/foo/bar/woof",
                b"cage/foo/baz",
                b"cage/foo/bang",
            ],
            &[b"foo", b"foo/", b"cage/foo", b"cage/foo/"],
        ),
        // Match anything *directly* underneath an anchored directory
        (
            b"/foo/*",
            &[b"foo/bar", b"foo/baz", b"foo/bang"],
            &[
                b"foo",
                b"foo/",
                b"foo/bar/woof",
                b"cage/foo",
                b"cage/foo/",
                b"cage/foo/bar",
                b"cage/foo/bar/woof",
                b"cage/foo/baz",
                b"cage/foo/bang",
            ],
        ),
        // Match anything underneath a directory, anchored
        (
            b"/foo/**",
            &[b"foo/bar", b"foo/bar/woof", b"foo/baz", b"foo/bang"],
            &[
                b"foo",
                b"foo/",
                b"cage/foo",
                b"cage/foo/",
                b"cage/foo/bar",
                b"cage/foo/bar/woof",
                b"cage/foo/baz",
                b"cage/foo/bang",
            ],
        ),
        // Match anything *directly* underneath a directory, anchored
        (
            b"/foo/*",
            &[b"foo/bar", b"foo/baz", b"foo/bang"],
            &[
                b"foo",
                b"foo/",
                b"foo/bar/woof",
                b"cage/foo",
                b"cage/foo/",
                b"cage/foo/bar",
                b"cage/foo/bar/woof",
                b"cage/foo/baz",
                b"cage/foo/bang",
            ],
        ),
    ];
    let mut wrong: u32 = 0;
    for (source, matches, unmatches) in cases {
        let pattern = RsyncPattern::new(source).unwrap();
        for case in matches.iter() {
            if !pattern.matches(case) {
                println!(
                    "Expected pattern \"{}\" to match path \"{}\", \
                     but it did not\nPattern compiled to: {:?}",
                    String::from_utf8_lossy(source),
                    String::from_utf8_lossy(case),
                    pattern
                );
                wrong += 1;
            }
        }
        for case in unmatches.iter() {
            if pattern.matches(case) {
                println!(
                    "Expected pattern \"{}\" not to match path \
                     \"{}\", but it did\nPattern compiled to: {:?}",
                    String::from_utf8_lossy(source),
                    String::from_utf8_lossy(case),
                    pattern
                );
                wrong += 1;
            }
        }
    }
    if wrong > 0 {
        panic!("Some cases are wrong!")
    }
}

#[test]
fn trailing_backslash_is_rejected() {
    assert_eq!(RsyncPattern::new(b"foo*\\").unwrap_err(), PatternError::TrailingBackslash);
}

#[test]
fn unterminated_set_is_rejected() {
    assert_eq!(RsyncPattern::new(b"foo[ab").unwrap_err(), PatternError::UnterminatedSet);
    assert_eq!(RsyncPattern::new(b"foo[").unwrap_err(), PatternError::UnterminatedSet);
    assert_eq!(RsyncPattern::new(b"foo[]").unwrap_err(), PatternError::UnterminatedSet);
}

#[test]
fn posix_class_is_rejected() {
    assert_eq!(
        RsyncPattern::new(b"foo[[:alpha:]]").unwrap_err(),
        PatternError::PosixClassUnsupported
    );
}

#[test]
fn non_ascii_set_bound_is_rejected() {
    assert_eq!(RsyncPattern::new(b"foo[\x96]").unwrap_err(), PatternError::NonAsciiSet);
    assert_eq!(RsyncPattern::new(b"foo[a-\xC3]").unwrap_err(), PatternError::NonAsciiSet);
}

#[test]
fn misplaced_triple_star_is_rejected() {
    assert_eq!(RsyncPattern::new(b"foo/***bar").unwrap_err(), PatternError::MisplacedTripleStar);
    assert_eq!(RsyncPattern::new(b"***").unwrap_err(), PatternError::MisplacedTripleStar);
}

#[test]
fn escaped_metacharacters_are_literal() {
    let p = RsyncPattern::new(b"foo\\*bar").unwrap();
    assert!(p.matches(b"foo*bar"));
    assert!(!p.matches(b"fooXbar"));
    assert!(!p.matches(b"foobar"));
}

#[test]
fn backslash_without_metacharacter_is_literal() {
    // The fast path keeps a backslash verbatim when the pattern has
    // no metacharacter at all.
    let p = RsyncPattern::new(b"foo\\bar").unwrap();
    assert!(p.matches(b"foo\\bar"));
    assert!(!p.matches(b"foobar"));
}

#[test]
fn inverted_set_matches_complement() {
    let p = RsyncPattern::new(b"x[^a-c]y").unwrap();
    assert!(p.matches(b"xdy"));
    assert!(!p.matches(b"xay"));
    assert!(!p.matches(b"xby"));
    assert!(!p.matches(b"xcy"));
}

#[test]
fn directory_only_pattern_needs_directory() {
    let p = RsyncPattern::new(b"build/").unwrap();
    assert!(p.matches(b"build/"));
    assert!(p.matches(b"src/build/"));
    assert!(!p.matches(b"build"));
    assert!(!p.matches(b"src/build"));
}

#[test]
fn original_form_is_kept_verbatim() {
    let p = RsyncPattern::new(b"/foo/*bar/").unwrap();
    assert_eq!(p.get_original_form(), b"/foo/*bar/");
}

#[test]
fn star_never_crosses_a_slash() {
    let p = RsyncPattern::new(b"a*c").unwrap();
    assert!(p.matches(b"abc"));
    assert!(p.matches(b"ac"));
    assert!(!p.matches(b"a/c"));
    // With a slash in the pattern the whole path is matched, and
    // only the doubled star may cross a directory boundary.
    let q = RsyncPattern::new(b"d/a**c").unwrap();
    assert!(q.matches(b"d/ab/xc"));
    assert!(q.matches(b"d/abc"));
    let r = RsyncPattern::new(b"d/a*c").unwrap();
    assert!(!r.matches(b"d/ab/xc"));
    assert!(r.matches(b"d/abc"));
}
