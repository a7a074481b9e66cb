use hostsfile::Entry;
use hostsfile::ErrorKind;
use hostsfile::HostsFile;
use hostsfile::IpAddr;
use hostsfile::MissingEndTagError;
use hostsfile::Status;

const BEGIN_TAG: &str = "# BEGIN ho — DO NOT REMOVE THIS LINE";
const END_TAG: &str = "# END ho — DO NOT REMOVE THIS LINE";

fn lines(raw: &[&str]) -> Vec<String> {
    raw.iter().map(|s| s.to_string()).collect()
}

fn fixture_lines() -> Vec<String> {
    lines(&[
        "# Static table lookup for hostnames.",
        "127.0.0.1 localhost",
        "",
        BEGIN_TAG,
        "127.0.0.2 pi.mlcdf.fr",
        END_TAG,
        "# the end",
    ])
}

#[test]
fn test_open_existing_file() {
    // A plain hosts file without any managed block loads fine.
    let content = lines(&[
        "127.0.0.1 localhost",
        "::1 localhost ip6-localhost",
        "",
        "# a comment",
    ]);
    let file = HostsFile::parse_lines(&content).unwrap();
    assert_eq!(file.before_lines().len(), 4);
    assert_eq!(file.managed_lines().len(), 0);
    assert_eq!(file.after_lines().len(), 0);
}

#[test]
fn test_empty_input() {
    let file = HostsFile::parse_lines(&Vec::new()).unwrap();
    assert_eq!(file.before_lines().len(), 0);
    assert_eq!(file.managed_lines().len(), 0);
    assert_eq!(file.after_lines().len(), 0);
}

#[test]
fn test_missing_end_tag_file() {
    let content = lines(&[
        "127.0.0.1 localhost",
        BEGIN_TAG,
        "127.0.0.2 pi.mlcdf.fr",
    ]);
    let err = HostsFile::parse_lines(&content).unwrap_err();
    assert!(matches!(err, ErrorKind::MissingEndTag(_)));
}

#[test]
fn test_missing_end_tag_regardless_of_trailer() {
    // Anything after the begin tag that parses still ends in the same failure.
    let content = lines(&[BEGIN_TAG, "10.0.0.1 a", "10.0.0.2 b c"]);
    let err = HostsFile::parse_lines(&content).unwrap_err();
    assert!(matches!(err, ErrorKind::MissingEndTag(_)));
}

#[test]
fn test_bad_managed_line_is_parse_error() {
    let content = lines(&[BEGIN_TAG, "not-an-ip pi.mlcdf.fr", END_TAG]);
    let err = HostsFile::parse_lines(&content).unwrap_err();
    assert!(matches!(err, ErrorKind::Parse));
}

#[test]
fn test_empty_managed_line_is_parse_error() {
    let content = lines(&[BEGIN_TAG, "", END_TAG]);
    let err = HostsFile::parse_lines(&content).unwrap_err();
    assert!(matches!(err, ErrorKind::Parse));
}

#[test]
fn test_ip_only_managed_line_is_parse_error() {
    // An IP without any hostname field is rejected.
    let content = lines(&[BEGIN_TAG, "127.0.0.2", END_TAG]);
    let err = HostsFile::parse_lines(&content).unwrap_err();
    assert!(matches!(err, ErrorKind::Parse));
}

#[test]
fn test_file_with_tags() {
    let mut file = HostsFile::parse_lines(&fixture_lines()).unwrap();
    let mut writer = String::new();

    let mut entries = Vec::<Entry>::new();
    entries.push(Entry::from_str("127.0.0.2 pi.mlcdf.fr pi2.mlcdf.fr").unwrap());

    let status = file.write(&entries, &mut writer).unwrap();
    assert_eq!(status, Status::Changed);

    let expected = "# Static table lookup for hostnames.\n\
                    127.0.0.1 localhost\n\
                    \n\
                    # BEGIN ho — DO NOT REMOVE THIS LINE\n\
                    127.0.0.2       pi.mlcdf.fr pi2.mlcdf.fr\n\
                    # END ho — DO NOT REMOVE THIS LINE\n\
                    # the end";
    assert_eq!(writer, expected);
}

#[test]
fn test_write_not_changed_sink_empty() {
    // Desired entries identical to the managed block: nothing is written.
    let mut file = HostsFile::parse_lines(&fixture_lines()).unwrap();
    let mut writer = String::new();

    let ip = IpAddr::from_str("127.0.0.2").unwrap();
    let entries = vec![Entry::new(ip, vec!["pi.mlcdf.fr".to_string()])];

    let status = file.write(&entries, &mut writer).unwrap();
    assert_eq!(status, Status::NotChanged);
    assert_eq!(writer, "");
}

#[test]
fn test_write_changed_updates_managed_line() {
    let mut file = HostsFile::parse_lines(&fixture_lines()).unwrap();
    let mut writer = String::new();

    let ip = IpAddr::from_str("127.0.0.2").unwrap();
    let entries = vec![Entry::new(
        ip,
        vec!["pi.mlcdf.fr".to_string(), "pi2.mlcdf.fr".to_string()],
    )];

    let status = file.write(&entries, &mut writer).unwrap();
    assert_eq!(status, Status::Changed);
    assert!(writer.contains("127.0.0.2       pi.mlcdf.fr pi2.mlcdf.fr\n"));
    assert!(writer.starts_with("# Static table lookup for hostnames.\n127.0.0.1 localhost\n\n# BEGIN ho"));
    assert!(writer.ends_with("# END ho — DO NOT REMOVE THIS LINE\n# the end"));
}

#[test]
fn test_write_same_entries_twice() {
    // First write changes the file, the second reports nothing to do.
    let mut file = HostsFile::parse_lines(&fixture_lines()).unwrap();
    let ip = IpAddr::from_str("127.0.0.2").unwrap();
    let entries = vec![Entry::new(
        ip,
        vec!["pi.mlcdf.fr".to_string(), "pi2.mlcdf.fr".to_string()],
    )];

    let mut first = String::new();
    let status = file.write(&entries, &mut first).unwrap();
    assert_eq!(status, Status::Changed);
    assert!(!first.is_empty());

    let mut second = String::new();
    let status = file.write(&entries, &mut second).unwrap();
    assert_eq!(status, Status::NotChanged);
    assert_eq!(second, "");
}

#[test]
fn test_no_tags_load_and_insert_block() {
    // A file without tags loads with an empty managed block; writing any
    // non-empty desired set inserts a fresh tagged block.
    let content = lines(&["127.0.0.1 localhost", "# user content"]);
    let mut file = HostsFile::parse_lines(&content).unwrap();
    assert_eq!(file.managed_lines().len(), 0);

    let ip = IpAddr::from_str("127.0.0.2").unwrap();
    let entries = vec![Entry::new(ip, vec!["pi.mlcdf.fr".to_string()])];
    let mut writer = String::new();
    let status = file.write(&entries, &mut writer).unwrap();
    assert_eq!(status, Status::Changed);

    let expected = "127.0.0.1 localhost\n\
                    # user content\n\
                    # BEGIN ho — DO NOT REMOVE THIS LINE\n\
                    127.0.0.2       pi.mlcdf.fr\n\
                    # END ho — DO NOT REMOVE THIS LINE\n";
    assert_eq!(writer, expected);
}

#[test]
fn test_shorter_desired_with_matching_prefix_keeps_stale_tail() {
    // The comparison is index-bounded by the desired list: managed entries
    // beyond its length are not checked, so nothing is reported or written.
    let content = lines(&[
        "# head",
        BEGIN_TAG,
        "10.0.0.1        a",
        "10.0.0.2        b",
        END_TAG,
    ]);
    let mut file = HostsFile::parse_lines(&content).unwrap();
    let ip = IpAddr::from_str("10.0.0.1").unwrap();
    let entries = vec![Entry::new(ip, vec!["a".to_string()])];
    let mut writer = String::new();
    let status = file.write(&entries, &mut writer).unwrap();
    assert_eq!(status, Status::NotChanged);
    assert_eq!(writer, "");
    assert_eq!(file.managed_lines().len(), 2);
}

#[test]
fn test_any_difference_replaces_wholesale() {
    // Once one compared index differs, the whole block is replaced and the
    // previous entries are discarded.
    let content = lines(&[
        "# head",
        BEGIN_TAG,
        "10.0.0.1        a",
        "10.0.0.2        b",
        END_TAG,
    ]);
    let mut file = HostsFile::parse_lines(&content).unwrap();
    let ip = IpAddr::from_str("10.0.0.3").unwrap();
    let entries = vec![Entry::new(ip, vec!["c".to_string()])];
    let mut writer = String::new();
    let status = file.write(&entries, &mut writer).unwrap();
    assert_eq!(status, Status::Changed);
    let expected = "# head\n\
                    # BEGIN ho — DO NOT REMOVE THIS LINE\n\
                    10.0.0.3        c\n\
                    # END ho — DO NOT REMOVE THIS LINE\n";
    assert_eq!(writer, expected);
    assert_eq!(file.managed_lines().len(), 1);
}

#[test]
fn test_parse_then_render_round_trip() {
    // With a canonical managed block, rendering the parsed file reproduces it.
    let content = lines(&[
        "# preamble",
        "127.0.0.1 localhost",
        BEGIN_TAG,
        "127.0.0.2       pi.mlcdf.fr",
        END_TAG,
        "# trailer",
    ]);
    let file = HostsFile::parse_lines(&content).unwrap();
    let mut out = String::new();
    file.render(&mut out);
    let full_text = content.join("\n");
    assert_eq!(out, full_text);
}

#[test]
fn test_second_block_lines_join_first() {
    // Tag lines switch the state from any state, so a second tagged block
    // appends its entries to the same managed block.
    let content = lines(&[
        BEGIN_TAG,
        "10.0.0.1 a",
        END_TAG,
        BEGIN_TAG,
        "10.0.0.2 b",
        END_TAG,
    ]);
    let file = HostsFile::parse_lines(&content).unwrap();
    assert_eq!(file.managed_lines().len(), 2);
}

#[test]
fn test_status_messages() {
    assert_eq!(Status::Changed.message(), "Updated");
    assert_eq!(
        Status::NotChanged.message(),
        "Already up to date; nothing to do."
    );
}

#[test]
fn test_error_messages() {
    assert_eq!(
        ErrorKind::Io("no such file".to_string()).message(),
        "IO error: no such file"
    );
    assert_eq!(ErrorKind::Parse.message(), "Parse error: invalid managed line");
    assert_eq!(
        ErrorKind::MissingEndTag(MissingEndTagError).message(),
        "Parse error: BEGIN tag found but END tag is missing"
    );
    assert_eq!(
        MissingEndTagError.message(),
        "BEGIN tag found but END tag is missing"
    );
}

#[test]
fn test_os_file_paths() {
    assert_eq!(hostsfile::os_file("linux").unwrap(), "/etc/hosts");
    assert_eq!(
        hostsfile::os_file("windows").unwrap(),
        "C:\\Windows\\System32\\drivers\\etc"
    );
    assert_eq!(hostsfile::os_file("macos").unwrap(), "/private/etc/hosts");
    assert!(hostsfile::os_file("plan9").is_none());
}
