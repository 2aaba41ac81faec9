use dns::error::DnsError;
use dns::label::{read_name, write_name};
use dns::text::{cut, eq_ignore_ascii_case, find, push_decimal, strip_prefix};

fn written(name: &str) -> Result<Vec<u8>, DnsError> {
    let mut out = vec![9];
    write_name(&mut out, name)?;
    Ok(out)
}

#[test]
fn a_name_is_its_labels_and_a_zero() {
    assert_eq!(written("a.bc.").expect("name"), [9, 1, b'a', 2, b'b', b'c', 0]);
    assert_eq!(written("a.bc").expect("name"), [9, 1, b'a', 2, b'b', b'c', 0]);
    assert_eq!(written(".a..bc.").expect("name"), [9, 1, b'a', 2, b'b', b'c', 0]);
    assert_eq!(written("").expect("root"), [9, 0]);
    assert_eq!(written(".").expect("root"), [9, 0]);
    assert_eq!(written("\u{e9}.").expect("two bytes"), [9, 2, 0xc3, 0xa9, 0]);
}

#[test]
fn a_name_that_cannot_be_written_leaves_nothing_behind() {
    let mut out = vec![1, 2];
    assert_eq!(
        write_name(&mut out, &format!("ok.{}", "x".repeat(64))),
        Err(DnsError::LongLabel)
    );
    assert_eq!(out, [1, 2]);
}

#[test]
fn a_name_reads_back_in_full() {
    for name in ["a.bc.", "a.bc", "", "Printer \u{1f5a8}._ipp._tcp.local."] {
        let bytes = written(name).expect("name");
        let full = if name.is_empty() || name.ends_with('.') {
            name.to_string()
        } else {
            format!("{name}.")
        };
        assert_eq!(read_name(&bytes, 1), Ok((full, bytes.len())));
    }
}

#[test]
fn pointers_are_followed_and_the_name_ends_behind_the_first() {
    let bytes = [1, b'a', 0, 2, b'b', b'c', 0xc0, 0, 1, b'd', 0xc0, 3, 7];
    assert_eq!(read_name(&bytes, 3), Ok(("bc.a.".to_string(), 8)));
    assert_eq!(read_name(&bytes, 8), Ok(("d.bc.a.".to_string(), 12)));
}

#[test]
fn a_pointer_into_its_own_name_that_ends_is_read() {
    // The pointer leads into the label before it, which holds a whole name.
    let bytes = [4, 1, b'x', 0, b'y', 0xc0, 1];
    assert_eq!(read_name(&bytes, 0), Ok(("\u{1}x\0y.x.".to_string(), 7)));
}

#[test]
fn a_loop_is_refused_however_long() {
    assert_eq!(read_name(&[1, b'a', 0xc0, 0], 0), Err(DnsError::PointerLoop));
    assert_eq!(
        read_name(&[1, b'a', 1, b'b', 0xc0, 2, 0xc0, 4], 6),
        Err(DnsError::PointerLoop)
    );
    assert_eq!(read_name(&[0xc0, 0], 0), Err(DnsError::PointerForward));
    assert_eq!(read_name(&[0xc0, 2, 0], 0), Err(DnsError::PointerForward));
    assert_eq!(read_name(&[0], 1), Err(DnsError::ShortName));
    assert_eq!(read_name(&[0], usize::MAX), Err(DnsError::ShortName));
}

#[test]
fn bytes_that_are_not_utf8_are_replaced() {
    let bytes = [2, 0xff, b'a', 0];
    assert_eq!(read_name(&bytes, 0), Ok(("\u{fffd}a.".to_string(), 4)));
}

#[test]
fn text_is_cut_at_the_first() {
    assert_eq!(cut("a/b/c", '/'), ("a", "b/c"));
    assert_eq!(cut("abc", '/'), ("abc", ""));
    assert_eq!(cut("\u{e9}/\u{e8}", '/'), ("\u{e9}", "\u{e8}"));
    assert_eq!(find("\u{e9}/", '/'), 1);
    assert_eq!(find("", '/'), 0);
    assert_eq!(strip_prefix("zone=z", "zone="), Some("z"));
    assert_eq!(strip_prefix("zone=", "zone="), Some(""));
    assert_eq!(strip_prefix("zon", "zone="), None);
    assert_eq!(strip_prefix("xone=", "zone="), None);
}

#[test]
fn only_ascii_case_is_ignored() {
    assert!(eq_ignore_ascii_case("Xmip.Example.", "xMIP.eXAMPLE."));
    assert!(!eq_ignore_ascii_case("\u{c9}.", "\u{e9}."));
    assert!(!eq_ignore_ascii_case("a", "ab"));
    assert!(!eq_ignore_ascii_case("[", "{"));
    assert!(!eq_ignore_ascii_case("@", "`"));
}

#[test]
fn numbers_are_decimal() {
    let mut text = String::from("n=");
    push_decimal(&mut text, 0);
    push_decimal(&mut text, 4660);
    push_decimal(&mut text, u64::MAX);
    assert_eq!(text, "n=0466018446744073709551615");
}
