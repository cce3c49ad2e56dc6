use text_toolkit::sort::{key_for, numeric_prefix, order_key as bits_key, single_char, sort, Options};
use text_toolkit::split_lines;

fn lines(s: &str) -> Vec<&str> {
    split_lines(s)
}

fn opts() -> Options {
    Options { delim: ' ', ..Default::default() }
}

/// The leading number of a sort key, 0 where none parses.
fn parse_num(s: &str) -> f64 {
    numeric_prefix(s).parse::<f64>().unwrap_or(0.0)
}

/// An integer that orders as the float does (with -0 equal to 0).
fn order_key(x: f64) -> u64 {
    text_toolkit::sort::order_key(x.to_bits())
}

fn numbers(lines: &[&str], opts: &Options) -> Vec<u64> {
    lines
        .iter()
        .map(|l| {
            let key: String = key_for(l, opts).into_iter().collect();
            order_key(parse_num(&key))
        })
        .collect()
}

fn sorted<'a>(lines: &[&'a str], opts: &Options) -> Vec<&'a str> {
    if opts.numeric {
        sort(lines, opts, &numbers(lines, opts))
    } else {
        sort(lines, opts, &[])
    }
}

#[test]
fn lexical_ascending() {
    let input = lines("banana\napple\ncherry\n");
    let out = sorted(&input, &opts());
    assert_eq!(out, vec!["apple", "banana", "cherry"]);
}

#[test]
fn lexical_vs_numeric_differ() {
    let input = lines("10\n9\n100\n2\n");
    let lex = sorted(&input, &opts());
    assert_eq!(lex, vec!["10", "100", "2", "9"]);

    let num = sorted(&input, &Options { numeric: true, ..opts() });
    assert_eq!(num, vec!["2", "9", "10", "100"]);
}

#[test]
fn reverse_numeric() {
    let input = lines("3\n1\n2\n");
    let out = sorted(&input, &Options { numeric: true, reverse: true, ..opts() });
    assert_eq!(out, vec!["3", "2", "1"]);
}

#[test]
fn unique_removes_duplicates() {
    let input = lines("b\na\nb\na\nc\n");
    let out = sorted(&input, &Options { unique: true, ..opts() });
    assert_eq!(out, vec!["a", "b", "c"]);
}

#[test]
fn by_field_numeric() {
    let input = lines("alice 30\nbob 5\ncarol 12\n");
    let out = sorted(
        &input,
        &Options { numeric: true, by_field: Some(2), delim: ' ', ..Default::default() },
    );
    assert_eq!(out, vec!["bob 5", "carol 12", "alice 30"]);
}

#[test]
fn by_field_custom_delim_lexical() {
    let input = lines("x,charlie\ny,alpha\nz,bravo\n");
    let out = sorted(&input, &Options { by_field: Some(2), delim: ',', ..Default::default() });
    assert_eq!(out, vec!["y,alpha", "z,bravo", "x,charlie"]);
}

#[test]
fn missing_field_sorts_as_empty() {
    let input = lines("a b\nc\nd e\n");
    let out = sorted(&input, &Options { by_field: Some(2), delim: ' ', ..Default::default() });
    assert_eq!(out[0], "c");
}

#[test]
fn numeric_handles_negative_and_float() {
    let input = lines("-3\n2.5\n-1\n0\n");
    let out = sorted(&input, &Options { numeric: true, ..opts() });
    assert_eq!(out, vec!["-3", "-1", "0", "2.5"]);
}

#[test]
fn parse_num_extracts_leading_number() {
    assert_eq!(parse_num("42abc"), 42.0);
    assert_eq!(parse_num("  -7.5 tail"), -7.5);
    assert_eq!(parse_num("notanumber"), 0.0);
    assert_eq!(parse_num("1e3x"), 1000.0);
}

#[test]
fn numeric_prefix_cases() {
    assert_eq!(numeric_prefix("  -7.5 tail"), "-7.5");
    assert_eq!(numeric_prefix("1e3x"), "1e3");
    assert_eq!(numeric_prefix("1e-3"), "1e-3");
    assert_eq!(numeric_prefix("e5"), "");
    assert_eq!(numeric_prefix("1.2.3"), "1.2");
    assert_eq!(numeric_prefix("5-3"), "5");
    assert_eq!(numeric_prefix("\t\u{3000}12"), "12");
    assert_eq!(numeric_prefix(""), "");
}

#[test]
fn key_for_fields() {
    let o = Options { by_field: Some(2), delim: ',', ..Default::default() };
    assert_eq!(key_for("a,b,c", &o), vec!['b']);
    assert_eq!(key_for("a", &o), Vec::<char>::new());
    let zero = Options { by_field: Some(0), delim: ',', ..Default::default() };
    assert_eq!(key_for("a,b", &zero), vec!['a', ',', 'b']);
    assert_eq!(key_for("a,b", &opts()), vec!['a', ',', 'b']);
}

#[test]
fn stable_among_equal_keys() {
    let input = vec!["b 1", "a 1", "c 0"];
    let o = Options { by_field: Some(2), delim: ' ', ..Default::default() };
    assert_eq!(sorted(&input, &o), vec!["c 0", "b 1", "a 1"]);
    let r = Options { reverse: true, ..o.clone() };
    assert_eq!(sorted(&input, &r), vec!["a 1", "b 1", "c 0"]);
}

#[test]
fn numeric_non_numbers_sort_as_zero() {
    let input = vec!["x", "-1", "y", "1"];
    assert_eq!(sorted(&input, &Options { numeric: true, ..opts() }), vec!["-1", "x", "y", "1"]);
}

#[test]
fn unique_is_on_whole_lines() {
    let input = vec!["a 1", "b 1", "a 1"];
    let o = Options { by_field: Some(2), delim: ' ', unique: true, ..Default::default() };
    assert_eq!(sorted(&input, &o), vec!["a 1", "b 1", "a 1"]);
}

#[test]
fn lexical_order_is_by_code_point() {
    let input = vec!["b", "B", "é", "a", ""];
    assert_eq!(sorted(&input, &opts()), vec!["", "B", "a", "b", "é"]);
}

#[test]
fn sorting_is_the_same_every_time() {
    let input = vec!["3 c", "1 a", "3 b", "2 z"];
    let o = Options { numeric: true, by_field: Some(1), delim: ' ', ..Default::default() };
    let first = sorted(&input, &o);
    assert_eq!(first, vec!["1 a", "2 z", "3 c", "3 b"]);
    assert_eq!(first, sorted(&input, &o));
}

#[test]
fn empty_lines_sort_to_nothing() {
    let input: Vec<&str> = Vec::new();
    assert!(sorted(&input, &opts()).is_empty());
}

#[test]
fn delimiter_must_be_one_character() {
    assert_eq!(single_char(","), Some(','));
    assert_eq!(single_char("é"), Some('é'));
    assert_eq!(single_char(""), None);
    assert_eq!(single_char(",,"), None);
}

#[test]
fn reverse_turns_the_whole_order_around() {
    let input = vec!["x 2", "a 1", "y 2", "b 1", "z 2"];
    for numeric in [false, true] {
        let o = Options { numeric, by_field: Some(2), delim: ' ', ..Default::default() };
        let r = Options { reverse: true, ..o.clone() };
        let mut asc = sorted(&input, &o);
        asc.reverse();
        assert_eq!(sorted(&input, &r), asc);
        assert_eq!(sorted(&input, &r), vec!["z 2", "y 2", "x 2", "b 1", "a 1"]);
    }
}

#[test]
fn dangling_exponent_is_not_part_of_the_number() {
    assert_eq!(numeric_prefix("5e"), "5");
    assert_eq!(numeric_prefix("3.5e+x"), "3.5");
    assert_eq!(numeric_prefix("2E-"), "2");
    assert_eq!(parse_num("5e"), 5.0);
    assert_eq!(parse_num("3.5e+x"), 3.5);
    assert_eq!(parse_num("1e+5"), 100000.0);
}

#[test]
fn default_delimiter_is_a_space() {
    assert_eq!(Options::default().delim, ' ');
    let input = vec!["a 2", "b 1"];
    assert_eq!(sort(&input, &Options { by_field: Some(2), ..Default::default() }, &[]), vec!["b 1", "a 2"]);
}

#[test]
fn order_keys_follow_float_order() {
    let xs = [f64::NEG_INFINITY, -1e300, -2.5, -1.0, -1e-300, 0.0, 1e-300, 1.0, 2.5, 1e300, f64::INFINITY];
    for (i, a) in xs.iter().enumerate() {
        for (j, b) in xs.iter().enumerate() {
            assert_eq!(bits_key(a.to_bits()) < bits_key(b.to_bits()), i < j, "{a} {b}");
        }
    }
    assert_eq!(bits_key((-0.0f64).to_bits()), bits_key(0.0f64.to_bits()));
    assert_eq!(bits_key(0), 1u64 << 63);
}
