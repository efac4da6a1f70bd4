use teip::{trim_eol, chomp_line_end, vecstr_rm_references};

#[test]
fn test_trim_eol() {
    let mut buf = vec![b'\x61', b'\x62', b'\n'];
    let end = trim_eol(&mut buf);
    assert_eq!(String::from_utf8_lossy(&buf).to_string(), "ab");
    assert_eq!(end, "\n");
}

#[test]
fn trim_eol_crlf() {
    let mut buf = b"ab\r\n".to_vec();
    let end = trim_eol(&mut buf);
    assert_eq!(buf, b"ab".to_vec());
    assert_eq!(end, "\r\n");
}

#[test]
fn trim_eol_nul() {
    let mut buf = b"ab\0".to_vec();
    let end = trim_eol(&mut buf);
    assert_eq!(buf, b"ab".to_vec());
    assert_eq!(end, "\0");
}

#[test]
fn trim_eol_none() {
    let mut buf = b"ab".to_vec();
    let end = trim_eol(&mut buf);
    assert_eq!(buf, b"ab".to_vec());
    assert_eq!(end, "");
}

#[test]
fn chomp_line_end_strips_one() {
    let mut buf = b"out\n\n".to_vec();
    chomp_line_end(&mut buf, b'\n');
    assert_eq!(buf, b"out\n".to_vec());
    chomp_line_end(&mut buf, b'\n');
    assert_eq!(buf, b"out".to_vec());
    chomp_line_end(&mut buf, b'\n');
    assert_eq!(buf, b"out".to_vec());
}

#[test]
fn vecstr_rm_references_copies() {
    let orig: Vec<&str> = vec!["tr", "a-z", "A-Z"];
    let owned = vecstr_rm_references(&orig);
    assert_eq!(owned, vec!["tr".to_string(), "a-z".to_string(), "A-Z".to_string()]);
}
