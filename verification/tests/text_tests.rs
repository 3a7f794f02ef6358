use tauri_plugin_fingerprint::text::{
    numbers_in, parse_token_i32, push_decimal_i64, push_hex, push_hex_fixed, split_lines,
};

fn chars(s: &str) -> Vec<char> {
    s.chars().collect()
}

#[test]
fn lines_as_str_lines() {
    for text in ["a\nb", "a\r\nb\n", "\n\nx", "", "x\r", "a\n\r\n", "a\r\r\nb"] {
        let got: Vec<String> = split_lines(&chars(text)).iter().map(|l| l.iter().collect()).collect();
        let want: Vec<String> = text.lines().map(|l| l.to_string()).collect();
        assert_eq!(got, want, "for {text:?}");
    }
}

#[test]
fn tokens_as_str_parse() {
    for t in ["0", "-0", "+7", "2147483647", "2147483648", "-2147483648", "-2147483649", "", "-", "+", "1a", "٣", "007"] {
        assert_eq!(parse_token_i32(&chars(t)), t.parse::<i32>().ok(), "for {t:?}");
    }
}

#[test]
fn numbers_as_split_whitespace() {
    for line in ["1 2 3", "  4\t5\u{a0}6  ", "x 1 y", "", "7\u{3000}8"] {
        let want: Vec<i32> = line.split_whitespace().filter_map(|n| n.parse().ok()).collect();
        assert_eq!(numbers_in(&chars(line)), want, "for {line:?}");
    }
}

#[test]
fn number_rendering() {
    let mut s = String::new();
    push_decimal_i64(&mut s, -120);
    s.push(' ');
    push_decimal_i64(&mut s, i32::MIN as i64);
    s.push(' ');
    push_hex(&mut s, 0x56aa);
    s.push(' ');
    push_hex_fixed(&mut s, 0x5ba, 4);
    assert_eq!(s, "-120 -2147483648 56aa 05ba");
}
