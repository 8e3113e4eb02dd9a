use linux_maps_parser::{parse_fields, parse_line, parse_lines, Entries, Entry, Error, Permissions};

fn lines(text: &[&str]) -> Vec<String> {
    text.iter().map(|l| l.to_string()).collect()
}

fn entry(start: u64, path: Option<&str>) -> Entry {
    Entry {
        start_addr: start,
        end_addr: start + 0x1000,
        perms: Permissions { read: true, write: false, execute: true },
        offset: 0,
        dev_maj: 8,
        dev_min: 1,
        inode: 7,
        path: path.map(|p| p.to_string()),
    }
}

#[test]
fn line_with_path() {
    let e = parse_line("7f2c3b000000-7f2c3b021000 r-xp 00000000 08:01 131099 /usr/lib/libc.so.6")
        .unwrap()
        .unwrap();
    assert_eq!(e.start_addr, 0x7f2c3b000000);
    assert_eq!(e.end_addr, 0x7f2c3b021000);
    assert_eq!(e.perms, Permissions { read: true, write: false, execute: true });
    assert!(e.is_readable());
    assert!(!e.is_writable());
    assert!(e.is_executable());
    assert_eq!(e.offset, 0);
    assert_eq!((e.dev_maj, e.dev_min), (8, 1));
    assert_eq!(e.inode, 131099);
    assert_eq!(e.path.as_deref(), Some("/usr/lib/libc.so.6"));
}

#[test]
fn line_without_path() {
    let e = parse_line("7ffd1000-7ffd3000 rw-p 0001c000 00:00 0").unwrap().unwrap();
    assert_eq!((e.start_addr, e.end_addr), (0x7ffd1000, 0x7ffd3000));
    assert!(e.is_writable());
    assert_eq!(e.offset, 0x1c000);
    assert_eq!(e.inode, 0);
    assert!(e.path.is_none());
}

#[test]
fn line_keeps_first_path_token_only() {
    let e = parse_line("1000-2000 r--p 0 08:01 5   /path/with spaces/lib.so")
        .unwrap()
        .unwrap();
    assert_eq!(e.path.as_deref(), Some("/path/with"));
    let s = parse_line("1000-2000 rw-p 0 00:00 0 [stack]").unwrap().unwrap();
    assert_eq!(s.path.as_deref(), Some("[stack]"));
}

#[test]
fn short_lines_give_nothing() {
    assert!(parse_line("").unwrap().is_none());
    assert!(parse_line("   \t ").unwrap().is_none());
    assert!(parse_line("1000-2000 r--p 0 08:01").unwrap().is_none());
    assert!(parse_line("zz zz zz zz").unwrap().is_none());
}

#[test]
fn long_line_with_bad_address_fails() {
    assert!(matches!(
        parse_line("zz-zz rwxp 0 00:00 1"),
        Err(Error::FormatError)
    ));
}

#[test]
fn first_failing_field_is_reported() {
    assert!(matches!(
        parse_line("1-2 rw 0 00:00 1"),
        Err(Error::FormatError)
    ));
    assert!(matches!(
        parse_line("1-2 rwxp q 0000 1"),
        Err(Error::IntParseError)
    ));
    assert!(matches!(
        parse_line("1-2 rwxp 0 0000 1"),
        Err(Error::FormatError)
    ));
    assert!(matches!(
        parse_line("1-2 rwxp 0 00:00 x"),
        Err(Error::IntParseError)
    ));
}

#[test]
fn fields_from_tokens() {
    let tokens = vec!["10-20", "r-xp", "ff", "08:02", "42", "/bin/true", "extra"];
    let e = parse_fields(&tokens).unwrap().unwrap();
    assert_eq!((e.start_addr, e.end_addr, e.offset), (0x10, 0x20, 0xff));
    assert_eq!((e.dev_maj, e.dev_min, e.inode), (8, 2, 42));
    assert_eq!(e.path.as_deref(), Some("/bin/true"));
    assert!(parse_fields(&vec!["10-20", "r-xp", "ff", "08:02"]).unwrap().is_none());
}

#[test]
fn listing_counts_long_lines_in_order() {
    let text = lines(&[
        "1000-2000 r--p 00000000 08:01 11 /lib/a.so",
        "",
        "2000-3000 r-xp 00001000 08:01 11 /lib/a.so",
        "short line",
        "3000-4000 rw-p 00000000 00:00 0",
        "4000-5000 ---p 00000000 00:00 0 [heap]",
    ]);
    let parsed = parse_lines(&text).unwrap();
    assert_eq!(parsed.len(), 4);
    let starts: Vec<u64> = parsed.entries().iter().map(|e| e.start_addr).collect();
    assert_eq!(starts, vec![0x1000, 0x2000, 0x3000, 0x4000]);
    assert_eq!(parsed.entries()[3].path.as_deref(), Some("[heap]"));
    assert_eq!(parsed.entries()[3].perms, Permissions { read: false, write: false, execute: false });
}

#[test]
fn empty_listing() {
    let parsed = parse_lines(&Vec::new()).unwrap();
    assert_eq!(parsed.len(), 0);
    let blank = parse_lines(&lines(&["", "  ", "a b"])).unwrap();
    assert_eq!(blank.len(), 0);
}

#[test]
fn malformed_long_line_aborts_listing() {
    let text = lines(&[
        "1000-2000 r--p 00000000 08:01 11 /lib/a.so",
        "zz-zz rwxp 0 00:00 1",
        "2000-3000 r-xp 00001000 08:01 11 /lib/a.so",
    ]);
    assert!(matches!(parse_lines(&text), Err(Error::FormatError)));
}

#[test]
fn listing_reports_first_failure() {
    let text = lines(&["1-2 rwxp 0 00:00 x", "zz-zz rwxp 0 00:00 1"]);
    assert!(matches!(parse_lines(&text), Err(Error::IntParseError)));
}

#[test]
fn filter_by_path_is_exact() {
    let all = Entries::new(vec![
        entry(0x1000, Some("/lib/a.so")),
        entry(0x2000, Some("/lib/b.so")),
        entry(0x3000, None),
    ]);
    let a = all.filter_by_pathname("/lib/a.so");
    assert_eq!(a.len(), 1);
    assert_eq!(a[0].start_addr, 0x1000);
    assert!(all.filter_by_pathname("/lib/c.so").is_empty());
    assert!(all.filter_by_pathname("/lib/a").is_empty());
    assert!(all.filter_by_pathname("").is_empty());
}

#[test]
fn filter_by_path_keeps_order() {
    let text = lines(&[
        "1000-2000 r--p 00000000 08:01 11 /usr/lib/libc.so.6",
        "2000-3000 rw-p 00000000 00:00 0",
        "3000-4000 r-xp 00001000 08:01 11 /usr/lib/libc.so.6",
        "4000-5000 r--p 00000000 08:01 12 /usr/lib/ld.so",
    ]);
    let parsed = parse_lines(&text).unwrap();
    let libc = parsed.filter_by_pathname("/usr/lib/libc.so.6");
    let starts: Vec<u64> = libc.iter().map(|e| e.start_addr).collect();
    assert_eq!(starts, vec![0x1000, 0x3000]);
}

#[test]
fn written_line_reads_back() {
    let e = entry(0xdeadbeef000, Some("/lib/x.so"));
    let line = format!(
        "{:x}-{:x} r-xp {:x} {:x}:{:x} {} {}",
        e.start_addr,
        e.end_addr,
        e.offset,
        e.dev_maj,
        e.dev_min,
        e.inode,
        e.path.as_deref().unwrap()
    );
    let back = parse_line(&line).unwrap().unwrap();
    assert_eq!((back.start_addr, back.end_addr), (e.start_addr, e.end_addr));
    assert_eq!(back.perms, e.perms);
    assert_eq!((back.offset, back.dev_maj, back.dev_min, back.inode), (0, 8, 1, 7));
    assert_eq!(back.path, e.path);
}
