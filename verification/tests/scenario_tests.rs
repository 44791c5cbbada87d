use gigtag::{DecodeError, DecodedTags, ParseErrorKind, Property, Tag};

#[test]
fn date_suffixes_sort_descending() {
    let mut decoded = DecodedTags::decode_str("x@20220101 x@20221231");
    assert_eq!(2, decoded.tags.len());
    decoded.reorder_and_dedup();
    assert_eq!("x@20221231 x@20220101", decoded.reencode());
}

#[test]
fn reorder_and_dedup_collapses_and_orders() {
    let mut decoded = DecodedTags::decode_str(
        "#b @20220624#label wishlist@20220625 #C @20220624#Label #A wishlist@20220625 \
         wishlist@20220625#By%20someone @20220626#Label non-date-like-facet#a \
         non-date-like-facet#B @20220626#Label",
    );
    assert_eq!(12, decoded.tags.len());
    decoded.reorder_and_dedup();
    assert_eq!(10, decoded.tags.len());
    assert_eq!(
        "#A #C #b non-date-like-facet#B non-date-like-facet#a @20220626#Label \
         wishlist@20220625#By%20someone wishlist@20220625 @20220624#Label @20220624#label",
        decoded.reencode()
    );
}

#[test]
fn reorder_and_dedup_twice_equals_once() {
    let mut once = DecodedTags::decode_str("note #b a@20220624 #A a@20220624 x#l");
    once.reorder_and_dedup();
    let mut twice = DecodedTags::decode_str("note #b a@20220624 #A a@20220624 x#l");
    twice.reorder_and_dedup();
    twice.reorder_and_dedup();
    assert_eq!(once, twice);
}

#[test]
fn rescan_of_reencoded_text_is_stable() {
    for text in [
        "  #Tag1\t#Tag%202  wishlist@20220526#Someone \n",
        "prose stays #One @20220626#Two",
        "only prose, no tags",
        "",
        "   \t \n ",
        "ends with newline\n",
    ] {
        let first = DecodedTags::decode_str(text);
        let second = DecodedTags::decode_str(text);
        let reencoded = second.reencode();
        let rescanned = DecodedTags::decode_str(&reencoded);
        assert_eq!(first, rescanned);
    }
}

#[test]
fn decode_error_kinds_are_distinguished() {
    assert_eq!(
        Tag::decode_str(" #label").unwrap_err(),
        DecodeError::Parse(ParseErrorKind::SurroundingWhitespace)
    );
    assert_eq!(
        Tag::decode_str("").unwrap_err(),
        DecodeError::Parse(ParseErrorKind::EmptyInput)
    );
    assert_eq!(
        Tag::decode_str("/facet#label").unwrap_err(),
        DecodeError::Parse(ParseErrorKind::LeadingSlash)
    );
    assert_eq!(
        Tag::decode_str("reserved:#character").unwrap_err(),
        DecodeError::Parse(ParseErrorKind::SchemeLikePrefix)
    );
    assert_eq!(
        Tag::decode_str("%FF#label").unwrap_err(),
        DecodeError::Parse(ParseErrorKind::InvalidUtf8)
    );
    assert_eq!(
        Tag::decode_str("#%20label").unwrap_err(),
        DecodeError::Parse(ParseErrorKind::InvalidLabel)
    );
    assert_eq!(
        Tag::decode_str("facet%20#label").unwrap_err(),
        DecodeError::Parse(ParseErrorKind::InvalidFacet)
    );
    assert_eq!(
        Tag::decode_str("a%20facet%20@20220625").unwrap_err(),
        DecodeError::Parse(ParseErrorKind::InvalidDateLikeSuffix)
    );
    assert_eq!(
        Tag::decode_str("facet?name").unwrap_err(),
        DecodeError::Parse(ParseErrorKind::PropertyWithoutValue)
    );
    assert_eq!(
        Tag::decode_str("facet?name=a=b").unwrap_err(),
        DecodeError::Parse(ParseErrorKind::MalformedProperty)
    );
    assert_eq!(
        Tag::decode_str("facet?%20name=val").unwrap_err(),
        DecodeError::Parse(ParseErrorKind::InvalidPropertyName)
    );
    assert_eq!(Tag::decode_str("01234567").unwrap_err(), DecodeError::InvalidTag);
}

#[test]
fn boundary_inputs_fail_with_a_syntax_error() {
    for bad in ["", " ", "\t"] {
        let err = Tag::decode_str(bad).unwrap_err();
        assert!(matches!(err, DecodeError::Parse(_)));
    }
    assert!(matches!(
        Tag::decode_str("/facet#label").unwrap_err(),
        DecodeError::Parse(_)
    ));
    assert!(Tag::decode_str(" #label").is_err());
    assert_eq!("label", "#label".parse::<Tag>().unwrap().label().as_str());
}

#[test]
fn multi_byte_characters_pass_through_unescaped() {
    let tag = Tag { label: String::from("Café"), ..Default::default() };
    let encoded = tag.encode();
    assert_eq!("#Café", encoded);
    assert_eq!(tag, Tag::decode_str(&encoded).unwrap());
    let tag = Tag {
        facet: String::from("zörk@20220625"),
        props: vec![Property { name: String::from("naïve"), value: String::from("völ=ue") }],
        ..Default::default()
    };
    let encoded = tag.encode();
    assert_eq!("zörk@20220625?naïve=völ%3Due", encoded);
    assert_eq!(tag, Tag::decode_str(&encoded).unwrap());
}

#[test]
fn property_accessors_and_validity() {
    let p = Property { name: String::from("name"), value: String::from("") };
    assert!(p.has_name());
    assert!(p.is_valid());
    assert_eq!("name", p.name().as_str());
    assert_eq!("", p.value().as_str());
    let unnamed = Property { name: String::from(""), value: String::from("v") };
    assert!(!unnamed.is_valid());
    assert!(gigtag::props::is_name_valid(""));
    assert!(gigtag::props::is_name_empty(""));
    assert!(!gigtag::props::is_name_valid(" x"));
    assert!(gigtag::label::is_valid("A label"));
    assert!(!gigtag::label::is_valid("/x"));
    assert!(gigtag::label::is_empty(""));
}

#[test]
fn scanning_never_fails_and_keeps_the_rest() {
    let decoded = DecodedTags::decode_str("not-a-tag");
    assert_eq!(0, decoded.tags.len());
    assert_eq!("not-a-tag", decoded.undecoded_prefix);
    let decoded = DecodedTags::decode_str("   \t ");
    assert_eq!(0, decoded.tags.len());
    assert_eq!("", decoded.undecoded_prefix);
    let decoded = DecodedTags::decode_str("stop-here #ok");
    assert_eq!(1, decoded.tags.len());
    assert_eq!("stop-here ", decoded.undecoded_prefix);
}

#[test]
fn encode_into_appends_and_separates() {
    let tag = Tag { label: String::from("One"), ..Default::default() };
    let mut buffer = String::from("note");
    tag.encode_into(&mut buffer);
    assert_eq!("note#One", buffer);

    let collection = DecodedTags {
        tags: vec![
            Tag { label: String::from("One"), ..Default::default() },
            Tag { label: String::from("Two"), ..Default::default() },
        ],
        undecoded_prefix: String::from("note"),
    };
    let mut buffer = String::new();
    collection.encode_into(&mut buffer);
    assert_eq!("note #One #Two", buffer);

    let collection = DecodedTags {
        tags: vec![Tag { label: String::from("One"), ..Default::default() }],
        undecoded_prefix: String::from("note "),
    };
    assert_eq!("note #One", collection.reencode());
}
