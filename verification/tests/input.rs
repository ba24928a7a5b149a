use front_scan::input::{parse_candidates, parse_ipv4, split_url};

fn ips(list: &[&str]) -> Vec<String> {
    list.iter().map(|ip| ip.to_string()).collect()
}

#[test]
fn candidates_are_the_lines() {
    assert_eq!(parse_candidates("1.2.3.4\n5.6.7.8\n"), ips(&["1.2.3.4", "5.6.7.8"]));
    assert_eq!(parse_candidates("1.2.3.4\n5.6.7.8"), ips(&["1.2.3.4", "5.6.7.8"]));
}

#[test]
fn blank_lines_and_surrounding_space_are_dropped() {
    let text = "\n  1.2.3.4  \r\n\t\n\r\n5.6.7.8\t\n   \n\n 9.9.9.9";
    assert_eq!(parse_candidates(text), ips(&["1.2.3.4", "5.6.7.8", "9.9.9.9"]));
}

#[test]
fn space_inside_a_line_stays() {
    assert_eq!(parse_candidates(" a b \n"), ips(&["a b"]));
}

#[test]
fn unicode_space_is_trimmed_too() {
    assert_eq!(parse_candidates("\u{3000}1.2.3.4\u{a0}\u{2003}\n\u{85}\n"), ips(&["1.2.3.4"]));
    assert_eq!(parse_candidates("\u{200b}1.2.3.4\n"), ips(&["\u{200b}1.2.3.4"]));
}

#[test]
fn an_empty_list_holds_no_candidate() {
    assert!(parse_candidates("").is_empty());
    assert!(parse_candidates("\n\n\r\n  \n").is_empty());
}

#[test]
fn candidates_agree_with_lines_and_trim() {
    let text = " x\r\ny \n\n\u{2028}z\u{2029}\n\u{1680}\nw\r";
    let expected: Vec<String> =
        text.lines().map(|l| l.trim().to_string()).filter(|l| !l.is_empty()).collect();
    assert_eq!(parse_candidates(text), expected);
}

#[test]
fn candidates_keep_what_is_not_ascii() {
    assert_eq!(parse_candidates("hôte\n日本\n"), ips(&["hôte", "日本"]));
}

#[test]
fn dotted_addresses_are_read() {
    assert_eq!(parse_ipv4("1.2.3.4"), Some((1, 2, 3, 4)));
    assert_eq!(parse_ipv4("0.0.0.0"), Some((0, 0, 0, 0)));
    assert_eq!(parse_ipv4("255.255.255.255"), Some((255, 255, 255, 255)));
    assert_eq!(parse_ipv4("192.168.10.200"), Some((192, 168, 10, 200)));
    assert_eq!(parse_ipv4("10.0.99.100"), Some((10, 0, 99, 100)));
}

#[test]
fn what_is_no_dotted_address_is_refused() {
    for text in [
        "", ".", "...", "1.2.3", "1.2.3.4.5", "1.2.3.", ".1.2.3", "1..2.3", "256.1.1.1",
        "1.1.1.256", "999.1.1.1", "1.2.3.4 ", " 1.2.3.4", "1.2.3.4\n", "01.2.3.4", "1.2.3.04",
        "00.0.0.0", "1.2.3.0000", "1.2.3.1000", "a.b.c.d", "1.2.3.-4", "1.2.3.+4", "1,2,3,4",
        "1.2.3.4/24", "1.2.3.4:80", "::1", "１.2.3.4", "0x1.2.3.4", "1.2.3.4.",
    ] {
        assert_eq!(parse_ipv4(text), None, "{:?}", text);
    }
}

#[test]
fn dotted_addresses_with_zeros() {
    assert_eq!(parse_ipv4("127.0.0.1"), Some((127, 0, 0, 1)));
    assert_eq!(parse_ipv4("9.99.199.249"), Some((9, 99, 199, 249)));
    assert_eq!(parse_ipv4("25.5.2.55"), Some((25, 5, 2, 55)));
    assert_eq!(parse_ipv4("100.200.0.10"), Some((100, 200, 0, 10)));
    assert_eq!(parse_ipv4("10.10.10.010"), None);
    assert_eq!(parse_ipv4("0.00.0.0"), None);
    assert_eq!(parse_ipv4("256.0.0.0"), None);
}

#[test]
fn url_is_cut_into_host_and_path() {
    assert_eq!(
        split_url("https://example.com/a/b.txt"),
        Some(("example.com".to_string(), "a/b.txt".to_string()))
    );
    assert_eq!(
        split_url("http://example.com"),
        Some(("example.com".to_string(), String::new()))
    );
    assert_eq!(
        split_url("http://example.com/"),
        Some(("example.com".to_string(), String::new()))
    );
    assert_eq!(
        split_url("https://example.com//x"),
        Some(("example.com".to_string(), "/x".to_string()))
    );
    assert_eq!(split_url("://h/p"), Some(("h".to_string(), "p".to_string())));
    assert_eq!(split_url("s://"), Some((String::new(), String::new())));
    assert_eq!(split_url("s:///p"), Some((String::new(), "p".to_string())));
}

#[test]
fn url_is_cut_at_the_first_scheme_mark() {
    assert_eq!(
        split_url("a://b://c/d"),
        Some(("b:".to_string(), "/c/d".to_string()))
    );
    assert_eq!(split_url("a:/://h/p"), Some(("h".to_string(), "p".to_string())));
    assert_eq!(split_url("a::///p"), Some((String::new(), "p".to_string())));
}

#[test]
fn url_without_scheme_is_refused() {
    assert_eq!(split_url(""), None);
    assert_eq!(split_url("example.com/a"), None);
    assert_eq!(split_url("http:/example.com"), None);
    assert_eq!(split_url("http//example.com"), None);
    assert_eq!(split_url(":/"), None);
    assert_eq!(split_url("//"), None);
}

#[test]
fn url_agrees_with_split_once() {
    for url in ["https://a.b/c/d", "x://y", "x://y/", "no scheme", "a://b://c", "é://ü/ß"] {
        let expected = url.split_once("://").map(|(_, rest)| match rest.split_once('/') {
            Some((host, path)) => (host.to_string(), path.to_string()),
            None => (rest.to_string(), String::new()),
        });
        assert_eq!(split_url(url), expected, "{:?}", url);
    }
}
