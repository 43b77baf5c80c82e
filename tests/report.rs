use tinyproxy_log_parse::extract::extract_candidates;
use tinyproxy_log_parse::record::{new_record, save_record, shorten_url, Candidate, Method, Record};
use tinyproxy_log_parse::report::{parse_logs, parse_sources, sort_by_recency};

fn chars(s: &str) -> Vec<char> {
    s.chars().collect()
}

fn cand(epoch: u64, method: Method, url: &str) -> Candidate {
    Candidate { epoch, method, url: String::from(url) }
}

#[test]
fn merging_same_candidate_counts_it() {
    let mut records: Vec<Record> = Vec::new();
    for _ in 0..5 {
        save_record(&mut records, cand(100, Method::Get, "http://a/"));
    }
    assert_eq!(records.len(), 1);
    assert_eq!(records[0].occurrence_count, 5);
    assert_eq!(records[0].last_seen_epoch, 100);
}

#[test]
fn merging_keeps_most_recent_epoch() {
    let mut records: Vec<Record> = Vec::new();
    for e in [100u64, 50, 200] {
        save_record(&mut records, cand(e, Method::Post, "http://a/"));
    }
    assert_eq!(records.len(), 1);
    assert_eq!(records[0].last_seen_epoch, 200);
    assert_eq!(records[0].occurrence_count, 3);
    assert_eq!(records[0].last_seen_display, "Jan 1 00:03:20 1970");
}

#[test]
fn method_and_url_make_the_key() {
    let mut records: Vec<Record> = Vec::new();
    save_record(&mut records, cand(1, Method::Get, "http://a/"));
    save_record(&mut records, cand(2, Method::Post, "http://a/"));
    save_record(&mut records, cand(3, Method::Get, "http://b/"));
    save_record(&mut records, cand(4, Method::Get, "http://a/"));
    assert_eq!(records.len(), 3);
    assert_eq!(records[0].occurrence_count, 2);
    assert_eq!(records[0].last_seen_epoch, 4);
    assert_eq!(records[1].occurrence_count, 1);
    assert_eq!(records[2].occurrence_count, 1);
}

#[test]
fn url_of_one_hundred_is_kept() {
    let url: String = "a".repeat(100);
    let r: String = shorten_url(&chars(&url)).into_iter().collect();
    assert_eq!(r, url);
}

#[test]
fn url_of_one_hundred_and_one_is_shortened() {
    let url: String = format!("{}{}{}", "a".repeat(50), "X", "b".repeat(50));
    let r: String = shorten_url(&chars(&url)).into_iter().collect();
    assert_eq!(r, format!("{}...{}", "a".repeat(50), "b".repeat(50)));
    let rec = new_record(cand(0, Method::Get, &url));
    assert_eq!(rec.url, url);
    assert_eq!(rec.url_display, format!("{}...{}", "a".repeat(50), "b".repeat(50)));
}

#[test]
fn line_with_both_methods_gives_two_candidates() {
    let line = chars("CONNECT Jun 14 20:25:00 [1]: GET http://a/ HTTP/1.1 POST http://b/ HTTP/1.1");
    let cs = extract_candidates(&line, 2019);
    assert_eq!(cs.len(), 2);
    assert_eq!(cs[0].method, Method::Get);
    assert_eq!(cs[0].url, "http://a/");
    assert_eq!(cs[0].epoch, 1560543900);
    assert_eq!(cs[1].method, Method::Post);
    assert_eq!(cs[1].url, "http://b/");
    assert_eq!(cs[1].epoch, 1560543900);
}

#[test]
fn line_without_method_gives_nothing() {
    let line = chars("CONNECT Jun 14 20:25:00 [1]: Established connection");
    assert_eq!(extract_candidates(&line, 2019).len(), 0);
}

#[test]
fn url_without_following_space_is_skipped() {
    let line = chars("CONNECT Jun 14 20:25:00 [1]: GET http://a/");
    assert_eq!(extract_candidates(&line, 2019).len(), 0);
    let line = chars("CONNECT Jun 14 20:25:00 [1]: POST http://b/ x GET");
    let cs = extract_candidates(&line, 2019);
    assert_eq!(cs.len(), 1);
    assert_eq!(cs[0].method, Method::Post);
}

#[test]
fn short_or_undated_line_is_skipped() {
    assert_eq!(extract_candidates(&chars("GET x y"), 2019).len(), 0);
    assert_eq!(extract_candidates(&chars("CONNECT Foo 14 20:25:00 GET http://a/ x"), 2019).len(), 0);
}

#[test]
fn records_are_sorted_most_recent_first() {
    let rs: Vec<Record> = [10u64, 30, 20]
        .iter()
        .enumerate()
        .map(|(i, e)| new_record(cand(*e, Method::Get, &format!("http://{}/", i))))
        .collect();
    let sorted = sort_by_recency(rs);
    let epochs: Vec<u64> = sorted.iter().map(|r| r.last_seen_epoch).collect();
    assert_eq!(epochs, vec![30, 20, 10]);
}

#[test]
fn equal_epochs_keep_their_order() {
    let rs: Vec<Record> = ["http://a/", "http://b/", "http://c/"]
        .iter()
        .map(|u| new_record(cand(7, Method::Get, u)))
        .collect();
    let sorted = sort_by_recency(rs);
    let urls: Vec<String> = sorted.iter().map(|r| r.url.clone()).collect();
    assert_eq!(urls, vec!["http://a/", "http://b/", "http://c/"]);
}

#[test]
fn sources_are_parsed_merged_and_sorted() {
    let a = String::from(
        "CONNECT Jun 14 20:25:00 [1]: GET http://a/ HTTP/1.1\n\n   \nINFO Jun 14 20:26:00 [1]: nothing\r\nCONNECT Jun 14 20:27:00 [1]: GET http://a/ HTTP/1.1\n",
    );
    let b = String::from("CONNECT Jun 15 00:00:00 [2]: POST http://b/ HTTP/1.1");
    let now = 1560543900;
    let rs = parse_sources(&vec![a, b], now);
    assert_eq!(rs.len(), 2);
    assert_eq!(rs[0].method, Method::Post);
    assert_eq!(rs[0].url, "http://b/");
    assert_eq!(rs[0].last_seen_display, "Jun 15 00:00:00 2019");
    assert_eq!(rs[1].url, "http://a/");
    assert_eq!(rs[1].occurrence_count, 2);
    assert_eq!(rs[1].last_seen_epoch, 1560544020);
    assert_eq!(rs[1].last_seen_display, "Jun 14 20:27:00 2019");
}

#[test]
fn method_names() {
    assert_eq!(Method::Get.name(), "GET");
    assert_eq!(Method::Post.name(), "POST");
}

#[test]
fn byte_buffers_are_decoded_leniently() {
    let mut a: Vec<u8> = b"CONNECT Jun 14 20:25:00 [1]: \xff\xfe GET http://a/ HTTP/1.1\n".to_vec();
    a.extend_from_slice(b"CONNECT Jun 14 20:26:00 [1]: GET http://caf\xc3\xa9/ HTTP/1.1\n");
    let b: Vec<u8> = Vec::new();
    let rs = parse_logs(&vec![a, b], 1560543900);
    assert_eq!(rs.len(), 2);
    assert_eq!(rs[0].url, "http://caf\u{e9}/");
    assert_eq!(rs[0].last_seen_epoch, 1560543960);
    assert_eq!(rs[1].url, "http://a/");
    assert_eq!(rs[1].last_seen_epoch, 1560543900);
}

#[test]
fn lines_are_trimmed_of_unicode_whitespace() {
    let text = String::from(
        "\u{a0}CONNECT Jun 14 20:25:00 [1]: GET http://a/ \u{a0}\nCONNECT Jun 14 20:25:00 [1]: POST http://b/ x\u{2029}",
    );
    let rs = parse_sources(&vec![text], 1560543900);
    assert_eq!(rs.len(), 1);
    assert_eq!(rs[0].method, Method::Post);
    assert_eq!(rs[0].url, "http://b/");
}
