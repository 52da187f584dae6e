use kernel::shell::{cmd_echo, cmd_pwd, edit_line, path_normalize, Command, Error, LineEdit};
use std::path::PathBuf;

#[test]
fn check_path_normalize() {
    let path = "/1/2/../3/./4/../../5/";
    assert_eq!(PathBuf::from("/1/5"), PathBuf::from(path_normalize(path)));

    let path = "/../../.././.";
    assert_eq!(PathBuf::from("/"), PathBuf::from(path_normalize(path)));
}

#[test]
fn path_normalize_exact_text() {
    assert_eq!(path_normalize("/1/2/../3/./4/../../5/"), "/1/5");
    assert_eq!(path_normalize("/../../.././."), "/");
    assert_eq!(path_normalize(""), "");
    assert_eq!(path_normalize("a/b/../c"), "a/c");
    assert_eq!(path_normalize("../a"), "a");
    assert_eq!(path_normalize("//usr///lib/"), "/usr/lib");
    assert_eq!(path_normalize("/a/.b/..c/..."), "/a/.b/..c/...");
}

#[test]
fn echo_puts_a_space_after_each_argument() {
    assert_eq!(cmd_echo(&["hello", "world"]), "hello world ");
    assert_eq!(cmd_echo(&[]), "");
}

#[test]
fn pwd_prints_cwd_or_complains() {
    assert_eq!(cmd_pwd(&[], "/home"), "/home");
    assert_eq!(cmd_pwd(&["x"], "/home"), "pwd: too many arguments");
}

#[test]
fn parse_splits_on_spaces() {
    let c = Command::parse("  echo   a b ", 64).unwrap();
    assert_eq!(c.len(), 3);
    assert_eq!(c.path(), "echo");
    assert_eq!(c.arg(1), "a");
    assert_eq!(c.arg(2), "b");
}

#[test]
fn parse_errors() {
    assert!(matches!(Command::parse("", 64), Err(Error::Empty)));
    assert!(matches!(Command::parse("    ", 64), Err(Error::Empty)));
    assert!(matches!(Command::parse("a b c", 2), Err(Error::TooManyArgs)));
    assert!(Command::parse("a b", 2).is_ok());
}

#[test]
fn edit_line_keys() {
    let mut line = Vec::new();
    assert_eq!(edit_line(&mut line, 2, b'a'), LineEdit::Echo(b'a'));
    assert_eq!(edit_line(&mut line, 2, b'b'), LineEdit::Echo(b'b'));
    assert_eq!(edit_line(&mut line, 2, b'c'), LineEdit::Bell);
    assert_eq!(line, b"ab".to_vec());
    assert_eq!(edit_line(&mut line, 2, 0x7F), LineEdit::Erase);
    assert_eq!(edit_line(&mut line, 2, 0x08), LineEdit::Erase);
    assert_eq!(edit_line(&mut line, 2, 0x08), LineEdit::Bell);
    assert_eq!(edit_line(&mut line, 2, 0x01), LineEdit::Bell);
    assert_eq!(edit_line(&mut line, 2, b'\r'), LineEdit::Done);
    assert_eq!(edit_line(&mut line, 2, b'\n'), LineEdit::Done);
    assert!(line.is_empty());
}

use kernel::shell::{cmd_cd, cmd_ls, ls_entry, CdAction, EntryInfo, LsRequest};
use kernel::text::{decimal_len, push_padded_decimal};

#[test]
fn cd_decisions() {
    assert!(matches!(cmd_cd(&[], "/a/b"), CdAction::Go(p) if p == "/"));
    assert!(matches!(cmd_cd(&["x", "y"], "/a"), CdAction::TooManyArgs));
    assert!(matches!(cmd_cd(&["."], "/a"), CdAction::Stay));
    assert!(matches!(cmd_cd(&[".."], "/a/b"), CdAction::Go(p) if p == "/a"));
    assert!(matches!(cmd_cd(&[".."], "/"), CdAction::Go(p) if p == "/"));
    assert!(matches!(cmd_cd(&["c/../d"], "/a"), CdAction::Check(p) if p == "/a/d"));
    assert!(matches!(cmd_cd(&["/etc/"], "/a"), CdAction::Check(p) if p == "/etc"));
}

#[test]
fn ls_decisions() {
    assert!(matches!(cmd_ls(&[], "/a"),
        LsRequest::List { directory, show_hidden: false } if directory == "/a"));
    assert!(matches!(cmd_ls(&["-a"], "/a"),
        LsRequest::List { directory, show_hidden: true } if directory == "/a"));
    assert!(matches!(cmd_ls(&["b"], "/a"),
        LsRequest::List { directory, show_hidden: false } if directory == "/a/b"));
    assert!(matches!(cmd_ls(&["-a", "/c/."], "/a"),
        LsRequest::List { directory, show_hidden: true } if directory == "/c"));
    assert!(matches!(cmd_ls(&["b", "c"], "/a"), LsRequest::Usage));
    assert!(matches!(cmd_ls(&["-a", "b", "c"], "/a"), LsRequest::TooManyArgs));
}

fn entry(name: &str, is_dir: bool) -> EntryInfo {
    EntryInfo {
        name: name.to_string(),
        is_dir,
        is_file: !is_dir,
        read_only: false,
        volume_id: false,
        day: 3,
        month: 11,
        year: 2018,
        hour: 9,
        minute: 5,
        size: 1234,
    }
}

#[test]
fn ls_entry_lines() {
    assert_eq!(
        ls_entry(&entry("notes.txt", false), false).unwrap(),
        "--w 03.11.2018 09:05       1234 notes.txt"
    );
    assert_eq!(
        ls_entry(&entry("docs", true), false).unwrap(),
        "d-w 03.11.2018 09:05          0 docs/"
    );
    let mut hidden = entry(".config", true);
    hidden.read_only = true;
    assert!(ls_entry(&hidden, false).is_none());
    assert_eq!(
        ls_entry(&hidden, true).unwrap(),
        "dhr 03.11.2018 09:05          0 .config/"
    );
    let mut volume = entry("DISK", false);
    volume.volume_id = true;
    assert!(ls_entry(&volume, true).is_none());
    let mut big = entry("big", false);
    big.size = 12_345_678_901;
    assert_eq!(
        ls_entry(&big, false).unwrap(),
        "--w 03.11.2018 09:05 12345678901 big"
    );
}

#[test]
fn decimal_padding() {
    assert_eq!(decimal_len(0), 1);
    assert_eq!(decimal_len(9), 1);
    assert_eq!(decimal_len(10), 2);
    assert_eq!(decimal_len(u64::MAX), 20);
    let mut s = String::new();
    push_padded_decimal(&mut s, 7, 3, "0");
    push_padded_decimal(&mut s, 1234, 2, " ");
    assert_eq!(s, "0071234");
}
