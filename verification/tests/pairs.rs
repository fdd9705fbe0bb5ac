use pairs_trading::pairs::{canonical_pair, dedup_pairs, line_pairs, pairs_from_lines, parse_pairs};
use pairs_trading::text::{is_white_space, str_le, str_lt};

fn p(a: &str, b: &str) -> (String, String) {
    (a.to_string(), b.to_string())
}

#[test]
fn parse_inline_pair_list() {
    assert_eq!(parse_pairs("cu:fu,rb:hc,au:ag"), vec![p("cu", "fu"), p("rb", "hc"), p("au", "ag")]);
    assert_eq!(parse_pairs(" cu : fu , rb:hc "), vec![p("cu", "fu"), p("rb", "hc")]);
    // items without a second name, or with an empty side, are skipped
    assert_eq!(parse_pairs("cu,rb:,:hc,au:ag:zn,,"), vec![p("au", "ag")]);
    assert_eq!(parse_pairs(""), Vec::<(String, String)>::new());
    assert_eq!(parse_pairs("\u{3000}铜\t:\u{a0}fu"), vec![p("铜", "fu")]);
}

#[test]
fn pair_file_lines() {
    let lines: Vec<String> = ["cu:fu", "rb:hc", "au:ag", "# comment lines ignored", "", "  ", "ni:sn, zn:pb", "bad"]
        .iter()
        .map(|s| s.to_string())
        .collect();
    assert_eq!(
        pairs_from_lines(&lines),
        vec![p("cu", "fu"), p("rb", "hc"), p("au", "ag"), p("ni", "sn"), p("zn", "pb")]
    );
    assert_eq!(line_pairs("  # cu:fu"), Vec::<(String, String)>::new());
    assert_eq!(line_pairs(" cu : fu "), vec![p("cu", "fu")]);
}

#[test]
fn canonical_order_ignores_argument_order() {
    assert_eq!(canonical_pair("fu", "cu"), p("cu", "fu"));
    assert_eq!(canonical_pair("cu", "fu"), p("cu", "fu"));
    assert_eq!(canonical_pair("ag", "ag"), p("ag", "ag"));
    assert_eq!(canonical_pair("ag", "a"), p("a", "ag"));
}

#[test]
fn duplicates_removed_keeping_first_occurrence() {
    let v = vec![p("cu", "fu"), p("rb", "hc"), p("cu", "fu"), p("au", "ag"), p("rb", "hc"), p("fu", "cu")];
    assert_eq!(dedup_pairs(&v), vec![p("cu", "fu"), p("rb", "hc"), p("au", "ag"), p("fu", "cu")]);
}

#[test]
fn white_space_matches_std() {
    for u in 0u32..=0x10FFFF {
        if let Some(c) = char::from_u32(u) {
            assert_eq!(is_white_space(c), c.is_whitespace(), "char {:x}", u);
        }
    }
}

#[test]
fn string_order_matches_std() {
    let words = ["", "a", "ab", "b", "ag2510", "ag2511", "铜", "z", "Z", "é", "e\u{301}"];
    for x in words.iter() {
        for y in words.iter() {
            assert_eq!(str_lt(x, y), x < y, "{} < {}", x, y);
            assert_eq!(str_le(x, y), x <= y, "{} <= {}", x, y);
        }
    }
}
