use qperformance::filter_records;
use qperformance::check_new_round;
use qperformance::get_question_types_by_round;
use qperformance::strutil::parse_usize_or_zero;
use qperformance::strutil::trim_quotes;
use qperformance::strutil::trim_quotes_end;
use qperformance::strutil::u32_to_string;
use qperformance::strutil::i32_to_string;
use qperformance::strutil::usize_to_string;
use qperformance::strutil::str_le;

fn rec_with_code(tourn: &str, code: &str) -> Vec<String> {
    let mut v: Vec<String> = (0..11).map(|_| String::new()).collect();
    v[1] = tourn.to_string();
    v[10] = format!("'{}'", code);
    v
}

#[test]
fn filter_keeps_only_whitelisted_codes() {
    let records = vec![
        rec_with_code("T", "TC"),
        rec_with_code("T", "TE"),
        rec_with_code("T", "BC"),
        rec_with_code("T", "BE"),
        rec_with_code("T", "TN"),
        rec_with_code("T", "QN"),
        rec_with_code("T", "RM"),
        rec_with_code("T", "ZZ"),
    ];
    let kept = filter_records(records, String::new());
    assert_eq!(kept.len(), 7);
}

#[test]
fn filter_drops_other_tournaments() {
    let records = vec![rec_with_code("T1", "TC"), rec_with_code("T2", "TC")];
    let kept = filter_records(records, "T1".to_string());
    assert_eq!(kept.len(), 1);
    assert_eq!(kept[0][1], "T1");
}

#[test]
fn round_boundary_is_a_room_or_round_change() {
    let mut v: Vec<String> = (0..11).map(|_| String::new()).collect();
    v[3] = "1".to_string();
    v[4] = "5".to_string();
    assert!(!check_new_round(&"5".to_string(), &"1".to_string(), &v));
    assert!(check_new_round(&"6".to_string(), &"1".to_string(), &v));
    assert!(check_new_round(&"5".to_string(), &"2".to_string(), &v));
}

#[test]
fn question_set_documents_parse_into_category_tables() {
    let doc = "SET #12 xxAz\\tabskip\\tabyyBz".to_string();
    let mut warns: Vec<String> = Vec::new();
    let table = get_question_types_by_round(&vec![doc], &mut warns);
    assert_eq!(table.len(), 1);
    assert_eq!(table[0].0, "'12'");
    assert_eq!(table[0].1, vec!['A', 'B']);
    assert!(warns.is_empty());
}

#[test]
fn repeated_set_numbers_keep_the_first_table() {
    let doc1 = "SET #9 aaQz".to_string();
    let doc2 = "SET #9 aaRz".to_string();
    let mut warns: Vec<String> = Vec::new();
    let table = get_question_types_by_round(&vec![doc1, doc2], &mut warns);
    assert_eq!(table.len(), 1);
    assert_eq!(table[0].1, vec!['Q']);
    assert_eq!(
        warns,
        vec!["Warning: Duplicate question set number: '9', using only the first.".to_string()]
    );
}

#[test]
fn quote_trimming_matches_the_log_format() {
    assert_eq!(trim_quotes("'Ann'"), "Ann");
    assert_eq!(trim_quotes("''"), "");
    assert_eq!(trim_quotes("plain"), "plain");
    assert_eq!(trim_quotes_end("'0'"), "'0");
}

#[test]
fn number_parsing_defaults_to_zero() {
    assert_eq!(parse_usize_or_zero("12"), 12);
    assert_eq!(parse_usize_or_zero("+7"), 7);
    assert_eq!(parse_usize_or_zero(""), 0);
    assert_eq!(parse_usize_or_zero("x7"), 0);
    assert_eq!(parse_usize_or_zero("99999999999999999999999999"), 0);
}

#[test]
fn decimal_rendering_round_trips() {
    assert_eq!(u32_to_string(0), "0");
    assert_eq!(u32_to_string(907), "907");
    assert_eq!(usize_to_string(12345), "12345");
    assert_eq!(i32_to_string(-10), "-10");
    assert_eq!(i32_to_string(2147483647), "2147483647");
    assert_eq!(i32_to_string(-2147483648), "-2147483648");
}

#[test]
fn lexicographic_order_on_names() {
    assert!(str_le("Alpha", "Beta"));
    assert!(!str_le("Beta", "Alpha"));
    assert!(str_le("Alp", "Alpha"));
    assert!(str_le("same", "same"));
}
