//! End-to-end scenarios through the boundary entry points: success paths
//! with independently computed encodings, each failure sentinel, fault
//! containment, and idempotence across repeated calls.

use marshal_inplace::STATUS_FAULT;
use marshal_inplace::STATUS_NOT_APPLICABLE;
use marshal_inplace::harness::parseFav;
use marshal_inplace::harness::parseTorrent;
use marshal_inplace::harness::parse_image_limit;

fn buf_from(s: &str) -> Vec<u8> {
    s.as_bytes().to_vec()
}

fn rd_u32(b: &[u8], p: &mut usize) -> u32 {
    let v = u32::from_le_bytes([b[*p], b[*p + 1], b[*p + 2], b[*p + 3]]);
    *p += 4;
    v
}

fn rd_i32(b: &[u8], p: &mut usize) -> i32 {
    let v = i32::from_le_bytes([b[*p], b[*p + 1], b[*p + 2], b[*p + 3]]);
    *p += 4;
    v
}

fn rd_text(b: &[u8], p: &mut usize) -> String {
    let n = rd_u32(b, p) as usize;
    let s = String::from_utf8(b[*p..*p + n].to_vec()).unwrap();
    *p += n;
    s
}

fn fav_entry_html(count: &str, cat: &str) -> String {
    format!(
        "<div class=\"fp\"><div>n</div><div>{}</div><div>x</div><div>y</div><div>z</div><div>{}</div></div>",
        count, cat
    )
}

fn fav_page(n: usize, count: &str, cat: &str) -> String {
    let mut page = String::new();
    for _ in 0..n {
        page.push_str(&fav_entry_html(count, cat));
    }
    page
}

#[test]
fn fav_ten_entries_round_trip() {
    let page = fav_page(10, "42", "Misc");
    let mut buf = buf_from(&page);
    let limit = buf.len() as i32;
    let status = parseFav(&mut buf, limit);
    assert!(status >= 0, "expected success, got {status}");
    let out = &buf[..status as usize];
    let mut p: usize = 0;
    assert_eq!(out[p], 1u8);
    p += 1;
    let ncats = rd_u32(out, &mut p);
    assert_eq!(ncats, 10);
    for _ in 0..10 {
        assert_eq!(rd_text(out, &mut p), "Misc");
    }
    let ncounts = rd_u32(out, &mut p);
    assert_eq!(ncounts, 10);
    for _ in 0..10 {
        assert_eq!(rd_i32(out, &mut p), 42);
    }
    let nentries = rd_u32(out, &mut p);
    assert_eq!(nentries, 10);
    for _ in 0..10 {
        assert_eq!(rd_text(out, &mut p), "n42xyzMisc");
    }
    assert_eq!(p, status as usize);
}

#[test]
fn fav_nine_entries_not_applicable() {
    let page = fav_page(9, "42", "Misc");
    let mut buf = buf_from(&page);
    let limit = buf.len() as i32;
    let status = parseFav(&mut buf, limit);
    assert_eq!(status, STATUS_NOT_APPLICABLE);
    assert_eq!(buf, buf_from(&page));
}

#[test]
fn fav_unreadable_slot_is_skipped() {
    // Ten good slots plus one whose count is not a number: the bad one is
    // passed over and the ten good ones are returned.
    let mut page = fav_entry_html("oops", "Bad");
    page.push_str(&fav_page(10, "7", "Art"));
    let mut buf = buf_from(&page);
    let limit = buf.len() as i32;
    let status = parseFav(&mut buf, limit);
    assert!(status >= 0);
    let out = &buf[..status as usize];
    let mut p: usize = 1;
    assert_eq!(rd_u32(out, &mut p), 10);
    for _ in 0..10 {
        assert_eq!(rd_text(out, &mut p), "Art");
    }
}

#[test]
fn fav_category_is_unescaped_and_trimmed() {
    let page = fav_page(10, "42", " A&amp;B ");
    let mut buf = buf_from(&page);
    let limit = buf.len() as i32;
    let status = parseFav(&mut buf, limit);
    assert!(status >= 0);
    let out = &buf[..status as usize];
    let mut p: usize = 1;
    assert_eq!(rd_u32(out, &mut p), 10);
    for _ in 0..10 {
        assert_eq!(rd_text(out, &mut p), "A&B");
    }
}

#[test]
fn fav_login_marker_is_fault() {
    let page = "<p>This page requires you to log on.</p>";
    let mut buf = buf_from(page);
    let limit = buf.len() as i32;
    let status = parseFav(&mut buf, limit);
    assert_eq!(status, STATUS_FAULT);
    assert_eq!(buf, buf_from(page));
}

#[test]
fn fav_login_marker_among_entries_is_fault() {
    // Even a page that otherwise holds ten perfect slots is a fault when the
    // marker is present anywhere in the text.
    let mut page = fav_page(10, "42", "Misc");
    page.push_str("<p>This page requires you to log on.</p>");
    let mut buf = buf_from(&page);
    let limit = buf.len() as i32;
    let status = parseFav(&mut buf, limit);
    assert_eq!(status, STATUS_FAULT);
}

#[test]
fn limits_three_numbers_exact_bytes() {
    let page = "<div class=\"homebox\">From <strong>5</strong> / <strong>100</strong> : <strong>10</strong></div>";
    let mut buf = buf_from(page);
    let limit = buf.len() as i32;
    let status = parse_image_limit(&mut buf, limit);
    assert_eq!(status, 13);
    let expected: Vec<u8> = vec![2, 5, 0, 0, 0, 100, 0, 0, 0, 10, 0, 0, 0];
    assert_eq!(&buf[..13], &expected[..]);
}

#[test]
fn limits_missing_homebox_is_fault() {
    let page = "<div class=\"other\"><strong>5</strong></div>";
    let mut buf = buf_from(page);
    let limit = buf.len() as i32;
    assert_eq!(parse_image_limit(&mut buf, limit), STATUS_FAULT);
}

#[test]
fn limits_too_few_numbers_is_fault() {
    let page = "<div class=\"homebox\"><strong>5</strong> <strong>100</strong></div>";
    let mut buf = buf_from(page);
    let limit = buf.len() as i32;
    assert_eq!(parse_image_limit(&mut buf, limit), STATUS_FAULT);
}

#[test]
fn undecodable_input_is_fault() {
    let mut buf: Vec<u8> = vec![0xFF, 0xFE, 0x20];
    assert_eq!(parse_image_limit(&mut buf, 3), STATUS_FAULT);
    assert_eq!(buf, vec![0xFF, 0xFE, 0x20]);
}

#[test]
fn untokenizable_input_is_fault() {
    let page = "<div>never closed";
    let mut buf = buf_from(page);
    let limit = buf.len() as i32;
    assert_eq!(parse_image_limit(&mut buf, limit), STATUS_FAULT);
    assert_eq!(buf, buf_from(page));
}

#[test]
fn out_of_range_limit_is_fault() {
    let page = "<div></div>";
    let mut buf = buf_from(page);
    let over = buf.len() as i32 + 1;
    assert_eq!(parse_image_limit(&mut buf, over), STATUS_FAULT);
    assert_eq!(parse_image_limit(&mut buf, -1), STATUS_FAULT);
    assert_eq!(buf, buf_from(page));
}

#[test]
fn repeated_call_is_idempotent() {
    let page = "<div class=\"homebox\"><strong>5</strong><strong>100</strong><strong>10</strong></div>";
    let mut buf1 = buf_from(page);
    let mut buf2 = buf_from(page);
    let limit = buf1.len() as i32;
    let s1 = parse_image_limit(&mut buf1, limit);
    let s2 = parse_image_limit(&mut buf2, limit);
    assert_eq!(s1, s2);
    assert_eq!(buf1, buf2);
}

fn torrent_table(name: &str, url: &str) -> String {
    let mut t = String::new();
    t.push_str("<table><tr>");
    t.push_str("<td><span>Posted</span> 2024-01-02 03:04</td>");
    t.push_str("<td><span>Size</span> 1.5 GiB</td>");
    t.push_str("<td><span>Seeds</span> 12</td>");
    t.push_str("<td><span>Peers</span> 3</td>");
    t.push_str("<td><span>Downloads</span> 7</td>");
    t.push_str("<td><span>Uploader</span>uploader</td>");
    t.push_str("</tr><tr><td>");
    t.push_str(&format!(
        "<a onclick=\"document.location='{}'; return false\" href=\"x\">{}</a>",
        url, name
    ));
    t.push_str("</td></tr></table>");
    t
}

#[test]
fn torrent_row_round_trip() {
    let page = torrent_table("Cool Torrent", "https://example.org/dl");
    let mut buf = buf_from(&page);
    let limit = buf.len() as i32;
    let status = parseTorrent(&mut buf, limit);
    assert!(status >= 0, "expected success, got {status}");
    let out = &buf[..status as usize];
    let mut p: usize = 0;
    assert_eq!(out[p], 3u8);
    p += 1;
    assert_eq!(rd_u32(out, &mut p), 1);
    assert_eq!(rd_text(out, &mut p), "2024-01-02");
    assert_eq!(rd_text(out, &mut p), "1.5 GiB");
    assert_eq!(rd_i32(out, &mut p), 12);
    assert_eq!(rd_i32(out, &mut p), 3);
    assert_eq!(rd_i32(out, &mut p), 7);
    assert_eq!(rd_text(out, &mut p), "https://example.org/dl");
    assert_eq!(rd_text(out, &mut p), "Cool Torrent");
    assert_eq!(p, status as usize);
}

#[test]
fn torrent_expunged_table_is_skipped() {
    let page = "<table><tr><td>Expunged</td></tr></table>";
    let mut buf = buf_from(page);
    let limit = buf.len() as i32;
    let status = parseTorrent(&mut buf, limit);
    assert_eq!(status, 5);
    assert_eq!(&buf[..5], &[3u8, 0, 0, 0, 0]);
}

#[test]
fn torrent_unmatched_table_is_fault() {
    let page = "<table><tr><td>nothing here</td></tr></table>";
    let mut buf = buf_from(page);
    let limit = buf.len() as i32;
    assert_eq!(parseTorrent(&mut buf, limit), STATUS_FAULT);
    assert_eq!(buf, buf_from(page));
}

#[test]
fn torrent_name_is_unescaped() {
    let page = torrent_table("A &amp; B", "https://example.org/t");
    let mut buf = buf_from(&page);
    let limit = buf.len() as i32;
    let status = parseTorrent(&mut buf, limit);
    assert!(status >= 0);
    let out = &buf[..status as usize];
    let mut p: usize = 5;
    let _ = rd_text(out, &mut p);
    let _ = rd_text(out, &mut p);
    p += 12;
    let _ = rd_text(out, &mut p);
    assert_eq!(rd_text(out, &mut p), "A & B");
}

#[test]
fn torrent_tables_keep_document_order() {
    let mut page = torrent_table("First", "https://example.org/a");
    page.push_str("<table><tr><td>Expunged</td></tr></table>");
    page.push_str(&torrent_table("Second", "https://example.org/b"));
    let mut buf = buf_from(&page);
    let limit = buf.len() as i32;
    let status = parseTorrent(&mut buf, limit);
    assert!(status >= 0);
    let out = &buf[..status as usize];
    let mut p: usize = 1;
    assert_eq!(rd_u32(out, &mut p), 2);
    for expected in ["First", "Second"] {
        let _ = rd_text(out, &mut p);
        let _ = rd_text(out, &mut p);
        p += 12;
        let _ = rd_text(out, &mut p);
        assert_eq!(rd_text(out, &mut p), expected);
    }
}

#[test]
fn multibyte_text_survives_decode_and_reencode() {
    // A category outside ASCII: decoding the input as UTF-8 and re-encoding
    // the extracted field must reproduce the original characters exactly.
    let page = fav_page(10, "42", "Caf\u{e9} \u{2764}");
    let mut buf = buf_from(&page);
    let limit = buf.len() as i32;
    let status = parseFav(&mut buf, limit);
    assert!(status >= 0);
    let out = &buf[..status as usize];
    let mut p: usize = 1;
    assert_eq!(rd_u32(out, &mut p), 10);
    for _ in 0..10 {
        assert_eq!(rd_text(out, &mut p), "Caf\u{e9} \u{2764}");
    }
}

#[test]
fn repeated_fav_call_is_idempotent() {
    let page = fav_page(10, "42", "Misc");
    let mut buf1 = buf_from(&page);
    let mut buf2 = buf_from(&page);
    let limit = buf1.len() as i32;
    let s1 = parseFav(&mut buf1, limit);
    let s2 = parseFav(&mut buf2, limit);
    assert_eq!(s1, s2);
    assert_eq!(buf1, buf2);
}

#[test]
fn repeated_torrent_call_is_idempotent() {
    let page = torrent_table("Same", "https://example.org/s");
    let mut buf1 = buf_from(&page);
    let mut buf2 = buf_from(&page);
    let limit = buf1.len() as i32;
    let s1 = parseTorrent(&mut buf1, limit);
    let s2 = parseTorrent(&mut buf2, limit);
    assert_eq!(s1, s2);
    assert_eq!(buf1, buf2);
}

#[test]
fn bare_login_marker_is_fault() {
    // The marker counts wherever it appears in the text, with no closing
    // tag required right after it.
    let page = "<div>Sorry: This page requires you to log on. Try again.</div>";
    let mut buf = buf_from(page);
    let limit = buf.len() as i32;
    assert_eq!(parseFav(&mut buf, limit), STATUS_FAULT);
    assert_eq!(buf, buf_from(page));
}

#[test]
fn doctype_comment_and_void_elements_are_tolerated() {
    let page = "<!DOCTYPE html><!-- header --><div class=\"homebox\">Used <strong>5</strong><br> of <strong>100</strong><br> reset <strong>10</strong><img src=\"i.png\"></div>";
    let mut buf = buf_from(page);
    let limit = buf.len() as i32;
    let status = parse_image_limit(&mut buf, limit);
    assert_eq!(status, 13);
    assert_eq!(&buf[..13], &[2, 5, 0, 0, 0, 100, 0, 0, 0, 10, 0, 0, 0]);
}
