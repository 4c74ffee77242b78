use std::io::Write;

use sweat::archive::{
    find_archive_name, find_first, matches_at, record_lines, station_lines, without_last,
};
use sweat::error::{Error, Fault, Rejection};
use sweat::station::station_days;

fn gzip(text: &[u8]) -> Vec<u8> {
    let mut encoder = flate2::write::GzEncoder::new(Vec::new(), flate2::Compression::default());
    encoder.write_all(text).unwrap();
    encoder.finish().unwrap()
}

fn lines(texts: &[&str]) -> Vec<Vec<u8>> {
    texts.iter().map(|text| text.as_bytes().to_vec()).collect()
}

/// One entry of the listing, 157 bytes long, with the file name from byte
/// 17 and the WBAN number from byte 24.
fn entry(station: &str, wban: &str, year: &str) -> String {
    let name = format!("{}-{}-{}.gz", station, wban, year);
    assert_eq!(name.len(), 20);
    let mut row = format!("<tr><td><a href=\"{}\">{}</a></td>", name, name);
    assert_eq!(&row[17..37], name);
    assert_eq!(&row[24..29], wban);
    while row.len() < 156 {
        row.push(' ');
    }
    row.push('\n');
    assert_eq!(row.len(), 157);
    row
}

fn listing(entries: &[String]) -> Vec<u8> {
    let mut page = String::from("<html><table><tr><th>Name</th><td>&nbsp;</td></tr>\n");
    for row in entries {
        page.push_str(row);
    }
    page.push_str("</table></html>\n");
    page.into_bytes()
}

#[test]
fn text_is_cut_at_its_newlines() {
    assert_eq!(record_lines(b"one\ntwo\n"), lines(&["one", "two", ""]));
    assert_eq!(record_lines(b"one\n\ntwo\n"), lines(&["one", "", "two", ""]));
    assert_eq!(record_lines(b"\n"), lines(&["", ""]));
    assert_eq!(record_lines(b"\n\n"), lines(&["", "", ""]));
    assert_eq!(record_lines(b"one\r\n"), lines(&["one\r", ""]));
}

#[test]
fn what_follows_the_last_newline_is_a_line_too() {
    assert_eq!(record_lines(b""), lines(&[""]));
    assert_eq!(record_lines(b"rest"), lines(&["rest"]));
    assert_eq!(record_lines(b"one\nrest"), lines(&["one", "rest"]));
    assert_eq!(record_lines(b"one\ntwo\nrest"), lines(&["one", "two", "rest"]));
}

#[test]
fn lines_are_what_split_gives() {
    for text in ["", "a", "a\n", "\na", "a\nb\n\nc\n", "\n\n\n", "abc\ndef"] {
        let expected: Vec<Vec<u8>> =
            text.split('\n').map(|piece| piece.as_bytes().to_vec()).collect();
        let cut = record_lines(text.as_bytes());
        assert_eq!(cut, expected);
        assert_eq!(cut.len(), 1 + text.bytes().filter(|byte| *byte == b'\n').count());
        assert!(cut.iter().all(|line| !line.contains(&b'\n')));
        assert_eq!(cut.join(&b'\n'), text.as_bytes().to_vec());
        if text.ends_with('\n') {
            assert!(cut[cut.len() - 1].is_empty());
        }
    }
}

#[test]
fn the_last_line_is_left_out() {
    assert_eq!(without_last(lines(&["one", "two", ""])), lines(&["one", "two"]));
    assert_eq!(without_last(lines(&["one", "rest"])), lines(&["one"]));
    assert_eq!(without_last(lines(&[""])), lines(&[]));
    assert_eq!(without_last(lines(&[])), lines(&[]));
    assert_eq!(without_last(record_lines(b"one\ntwo\n")), lines(&["one", "two"]));
}

#[test]
fn a_compressed_file_gives_its_lines() {
    let packed = gzip(b"first line\nsecond line\n");
    assert!(packed != b"first line\nsecond line\n".to_vec());
    assert_eq!(station_lines(&packed), Some(lines(&["first line", "second line", ""])));
    assert_eq!(station_lines(&gzip(b"")), Some(lines(&[""])));
    assert_eq!(station_lines(&gzip(b"no newline")), Some(lines(&["no newline"])));
}

#[test]
fn what_is_no_gzip_file_gives_nothing() {
    assert_eq!(station_lines(b"first line\nsecond line\n"), None);
    assert_eq!(station_lines(b""), None);
    let mut cut = gzip(b"first line\nsecond line\n");
    cut.truncate(cut.len() - 6);
    assert_eq!(station_lines(&cut), None);
    let mut damaged = gzip(b"first line\nsecond line\n");
    let last = damaged.len() - 8;
    damaged[last] ^= 0xff;
    assert_eq!(station_lines(&damaged), None);
}

#[test]
fn text_that_is_not_utf8_gives_nothing() {
    assert_eq!(station_lines(&gzip(&[0x61, 0x0a, 0xff, 0xfe, 0x0a])), None);
    assert_eq!(
        station_lines(&gzip("gr\u{fc}n\n".as_bytes())),
        Some(lines(&["gr\u{fc}n", ""]))
    );
}

#[test]
fn from_a_compressed_file_to_the_days() {
    let mut record = vec![b' '; 105];
    record[15..27].copy_from_slice(b"202201010000");
    record[56..59].copy_from_slice(b"V03");
    record[87..93].copy_from_slice(b"+02005");
    let mut text = record.clone();
    text.push(b'\n');
    record[15..27].copy_from_slice(b"202201020000");
    record[87..93].copy_from_slice(b"+03005");
    text.extend_from_slice(&record);
    text.push(b'\n');
    let read = station_lines(&gzip(&text)).unwrap();
    assert_eq!(read.len(), 3);
    assert_eq!(
        station_days(&read),
        Err(Rejection { index: 2, error: Error::MalformedRecord(Fault::TooShort) })
    );
    let records = without_last(read);
    assert_eq!(records.len(), 2);
    let days = station_days(&records).unwrap();
    assert_eq!(days[0].weighted_sum, 200 * 1440);
    assert_eq!(days[1].weighted_sum, 300 * 1440);
}

#[test]
fn patterns_are_found_where_they_stand() {
    assert!(matches_at(b"abcabc", b"bc", 1));
    assert!(matches_at(b"abcabc", b"bc", 4));
    assert!(!matches_at(b"abcabc", b"bc", 0));
    assert!(!matches_at(b"abcabc", b"bc", 5));
    assert!(!matches_at(b"abcabc", b"bc", 6));
    assert!(!matches_at(b"abcabc", b"bc", usize::MAX));
    assert!(matches_at(b"abc", b"", 3));
    assert!(!matches_at(b"abc", b"", 4));
    assert!(!matches_at(b"ab", b"abc", 0));
    assert_eq!(find_first(b"abcabc", b"bc"), Some(1));
    assert_eq!(find_first(b"abcabc", b"abc"), Some(0));
    assert_eq!(find_first(b"abcabc", b"cab"), Some(2));
    assert_eq!(find_first(b"abcabc", b"abcabc"), Some(0));
    assert_eq!(find_first(b"abcabc", b"cb"), None);
    assert_eq!(find_first(b"abcabc", b"abcabca"), None);
    assert_eq!(find_first(b"abc", b""), Some(0));
    assert_eq!(find_first(b"", b""), Some(0));
    assert_eq!(find_first(b"", b"a"), None);
    assert_eq!(find_first(b"aab", b"ab"), Some(1));
}

#[test]
fn a_station_is_found_in_the_listing() {
    let page = listing(&[
        entry("010010", "99999", "2022"),
        entry("722540", "13958", "2022"),
        entry("725180", "14735", "2022"),
    ]);
    assert_eq!(find_archive_name(&page, b"13958"), Some(b"722540-13958-2022.gz".to_vec()));
    assert_eq!(find_archive_name(&page, b"99999"), Some(b"010010-99999-2022.gz".to_vec()));
    assert_eq!(find_archive_name(&page, b"14735"), Some(b"725180-14735-2022.gz".to_vec()));
}

#[test]
fn of_two_entries_for_a_station_the_first_is_taken() {
    let page = listing(&[
        entry("010010", "99999", "2022"),
        entry("010020", "99999", "2022"),
        entry("722540", "13958", "2022"),
        entry("722541", "13958", "2022"),
    ]);
    assert_eq!(find_archive_name(&page, b"99999"), Some(b"010010-99999-2022.gz".to_vec()));
    assert_eq!(find_archive_name(&page, b"13958"), Some(b"722540-13958-2022.gz".to_vec()));
}

#[test]
fn a_station_that_is_not_listed_is_not_found() {
    let page = listing(&[entry("010010", "99999", "2022"), entry("722540", "13958", "2022")]);
    assert_eq!(find_archive_name(&page, b"23188"), None);
    assert_eq!(find_archive_name(&page, b"1395"), None);
    assert_eq!(find_archive_name(&page, b"139580"), None);
    assert_eq!(find_archive_name(&page, b""), None);
    assert_eq!(find_archive_name(&listing(&[]), b"13958"), None);
}

#[test]
fn a_listing_without_header_row_holds_no_station() {
    let mut page = entry("722540", "13958", "2022").into_bytes();
    assert_eq!(find_archive_name(&page, b"13958"), None);
    assert_eq!(find_archive_name(b"", b"13958"), None);
    assert_eq!(find_archive_name(b"</td></tr>", b"13958"), None);
    assert_eq!(find_archive_name(b"</td></tr>\n", b"13958"), None);
    let mut with_header = b"</td></tr>\n".to_vec();
    with_header.append(&mut page);
    assert_eq!(find_archive_name(&with_header, b"13958"), Some(b"722540-13958-2022.gz".to_vec()));
}

#[test]
fn entries_are_counted_from_the_first_header_end() {
    let mut page = b"</td></tr>\n".to_vec();
    page.extend_from_slice(entry("722540", "13958", "2022").as_bytes());
    page.extend_from_slice(b"</td></tr>\n");
    page.extend_from_slice(entry("725180", "14735", "2022").as_bytes());
    assert_eq!(find_archive_name(&page, b"13958"), Some(b"722540-13958-2022.gz".to_vec()));
    assert_eq!(find_archive_name(&page, b"14735"), None);
}

#[test]
fn a_listing_that_ends_within_the_name_gives_nothing() {
    let mut page = b"</td></tr>\n".to_vec();
    page.extend_from_slice(entry("722540", "13958", "2022").as_bytes());
    let whole = page.len();
    page.truncate(11 + 37);
    assert_eq!(find_archive_name(&page, b"13958"), Some(b"722540-13958-2022.gz".to_vec()));
    page.truncate(11 + 36);
    assert_eq!(find_archive_name(&page, b"13958"), None);
    page.truncate(11 + 29);
    assert_eq!(find_archive_name(&page, b"13958"), None);
    page.truncate(11 + 28);
    assert_eq!(find_archive_name(&page, b"13958"), None);
    assert!(whole > 11 + 37);
}
