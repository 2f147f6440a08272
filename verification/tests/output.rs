use knockout_exclude_check::classify::TestResult;
use knockout_exclude_check::output::out_escaped_string;
use knockout_exclude_check::output::push_decimal;

#[test]
fn escaping_quotes_backslashes_and_newlines() {
    let mut out: Vec<u8> = Vec::new();
    out_escaped_string(&mut out, b"a\"b\\c\nd");
    assert_eq!(out, b"a\\\"b\\\\c\\nd".to_vec());
}

#[test]
fn escaping_control_bytes_uses_uppercase_hex() {
    let mut out: Vec<u8> = Vec::new();
    out_escaped_string(&mut out, b"\x00\x01\x1F ~");
    assert_eq!(out, b"\\x00\\x01\\x1F ~".to_vec());
}

#[test]
fn escaping_round_trips_when_read_back() {
    // Undo the escaping by hand and recover the original bytes.
    let name: &[u8] = b"we\"ird\\name\nwith\x01controls";
    let mut escaped: Vec<u8> = Vec::new();
    out_escaped_string(&mut escaped, name);
    let mut back: Vec<u8> = Vec::new();
    let mut i: usize = 0;
    while i < escaped.len() {
        if escaped[i] == b'\\' {
            match escaped[i + 1] {
                b'n' => {
                    back.push(b'\n');
                    i += 2;
                },
                b'x' => {
                    let hv = |d: u8| if d < b':' { d - b'0' } else { d - b'7' };
                    back.push(hv(escaped[i + 2]) * 16 + hv(escaped[i + 3]));
                    i += 4;
                },
                c => {
                    back.push(c);
                    i += 2;
                },
            }
        } else {
            back.push(escaped[i]);
            i += 1;
        }
    }
    assert_eq!(back, name.to_vec());
}

#[test]
fn invalid_text_is_replaced_for_display() {
    // 0x96 is not valid UTF-8 on its own; the display form replaces
    // it rather than passing the raw byte through.
    let mut out: Vec<u8> = Vec::new();
    out_escaped_string(&mut out, b"\x96");
    assert_eq!(out, "\u{FFFD}".as_bytes().to_vec());
}

#[test]
fn decimal_digits_are_exact() {
    let mut out: Vec<u8> = Vec::new();
    push_decimal(&mut out, 0);
    push_decimal(&mut out, 10);
    push_decimal(&mut out, 18446744073709551615);
    assert_eq!(out, b"01018446744073709551615".to_vec());
}

#[test]
fn leaf_entries_serialize_with_their_tags() {
    let mut out: Vec<u8> = Vec::new();
    TestResult::Excluded.output(&mut out, b"gone");
    TestResult::FullyVetted.output(&mut out, b"ok");
    TestResult::UnvettedFile(42).output(&mut out, b"f.txt");
    TestResult::ErrorDirectory.output(&mut out, b"bad");
    TestResult::Mount.output(&mut out, b"mnt");
    assert_eq!(out, b"\"xgone\",\"vok\",\"ff.txt:42\",\"ebad\",\"mmnt\",".to_vec());
}

#[test]
fn directories_serialize_as_nested_groups() {
    let tree = TestResult::UnvettedDirectory(vec![
        (b"a".to_vec(), TestResult::UnvettedFile(1)),
        (
            b"sub".to_vec(),
            TestResult::UnvettedDirectory(vec![(b"deep".to_vec(), TestResult::Excluded)]),
        ),
    ]);
    let mut out: Vec<u8> = Vec::new();
    tree.output(&mut out, b"root");
    assert_eq!(
        out,
        b"[\"droot\",\"fa:1\",[\"dsub\",\"xdeep\",],\n],\n".to_vec()
    );
}

#[test]
fn serialized_names_are_escaped() {
    let mut out: Vec<u8> = Vec::new();
    TestResult::UnvettedFile(7).output(&mut out, b"a\"b");
    assert_eq!(out, b"\"fa\\\"b:7\",".to_vec());
}
