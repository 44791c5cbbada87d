use gigtag::facet;
use gigtag::facet::Date;

#[test]
fn try_split_into_prefix_and_date_like_suffix_should_accept_and_preserve_invalid_whitespace() {
    let date = Date::new(2022, 6, 25).unwrap();
    assert_eq!(
        ("", Some(date)),
        facet::try_split_into_prefix_and_parse_date_suffix("@20220625").unwrap()
    );
    assert_eq!(
        ("a \tb c\n ", Some(date)),
        facet::try_split_into_prefix_and_parse_date_suffix("a \tb c\n @20220625").unwrap()
    );
}

#[test]
fn try_split_into_prefix_and_date_like_suffix_should_accept_invalid_dates() {
    assert_eq!(
        ("", "@00000000"),
        facet::try_split_into_prefix_and_date_like_suffix("@00000000").unwrap()
    );
    assert_eq!(
        ("", None),
        facet::try_split_into_prefix_and_parse_date_suffix("@00000000").unwrap()
    );
    assert_eq!(
        ("abc", "@99999999"),
        facet::try_split_into_prefix_and_date_like_suffix("abc@99999999").unwrap()
    );
    assert_eq!(
        ("abc", None),
        facet::try_split_into_prefix_and_parse_date_suffix("abc@99999999").unwrap()
    );
    assert_eq!(
        ("abc ", "@19700230"),
        facet::try_split_into_prefix_and_date_like_suffix("abc @19700230").unwrap()
    );
    assert_eq!(
        ("abc ", None),
        facet::try_split_into_prefix_and_parse_date_suffix("abc @19700230").unwrap()
    );
}

#[test]
fn has_date_like_suffix() {
    assert!(facet::has_date_like_suffix("@20220625"));
    assert!(facet::has_date_like_suffix("a@20220625"));
    assert!(!facet::has_date_like_suffix("a @20220625"));
    assert!(!facet::has_date_like_suffix("a-20220625"));
    assert!(!facet::has_date_like_suffix("a20220625"));
}

#[test]
fn try_split_too_short_or_non_ascii_suffix() {
    assert_eq!(None, facet::try_split_into_prefix_and_date_like_suffix("@2022062"));
    assert_eq!(None, facet::try_split_into_prefix_and_date_like_suffix(""));
    assert_eq!(None, facet::try_split_into_prefix_and_date_like_suffix("café@2022062"));
    assert_eq!(
        ("caf\u{e9}", "@20220625"),
        facet::try_split_into_prefix_and_date_like_suffix("café@20220625").unwrap()
    );
}

#[test]
fn date_new_accepts_only_calendar_dates() {
    assert!(Date::new(2020, 2, 29).is_some());
    assert!(Date::new(2019, 2, 29).is_none());
    assert!(Date::new(1900, 2, 29).is_none());
    assert!(Date::new(2000, 2, 29).is_some());
    assert!(Date::new(2022, 4, 31).is_none());
    assert!(Date::new(2022, 4, 30).is_some());
    assert!(Date::new(2022, 13, 1).is_none());
    assert!(Date::new(2022, 0, 1).is_none());
    assert!(Date::new(2022, 1, 0).is_none());
    assert!(Date::new(10000, 1, 1).is_none());
    assert!(Date::new(0, 1, 1).is_some());
}

#[test]
fn format_date_suffix_onto_prefix() {
    let date = Date::new(2022, 6, 25).unwrap();
    assert_eq!(
        "wishlist@20220625",
        facet::from_prefix_with_date_suffix("wishlist", date)
    );
    assert_eq!("@20220625", facet::from_prefix_with_date_suffix("", date));
    let early = Date::new(7, 3, 4).unwrap();
    assert_eq!("x@00070304", facet::from_prefix_with_date_suffix("x", early));
}

#[test]
fn facet_validity_rules() {
    assert!(facet::is_valid(""));
    assert!(facet::is_valid("a/b"));
    assert!(!facet::is_valid("/a"));
    assert!(!facet::is_valid(" a"));
    assert!(!facet::is_valid("a "));
    assert!(facet::is_empty(""));
    assert!(!facet::is_empty("a"));
    assert!(facet::has_invalid_date_like_suffix("a @20220625"));
    assert!(!facet::has_invalid_date_like_suffix("a@20220625"));
    assert!(!facet::has_invalid_date_like_suffix("@20220625"));
}
