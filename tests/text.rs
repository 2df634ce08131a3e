use fcs::text::{split_fields, Text, TextError};

fn value<'a>(text: &'a Text, key: &str) -> Option<&'a str> {
    text.get(key).map(|s| s.as_str())
}

fn fields(body: &str) -> Vec<String> {
    split_fields(body, ',')
}

#[test]
fn parse_full() {
    let input = ",$key1,val,,ue1,$KEY2,,,value2,";
    let text = Text::try_from(input).unwrap();
    assert_eq!(text.delimiter, ',');
    assert_eq!(text.pairs.len(), 2);
    assert_eq!(value(&text, "$KEY1"), Some("val,ue1"));
    assert_eq!(value(&text, "$KEY2,"), Some("value2"));
}

#[test]
fn text_escaping_reference_decomposition() {
    let body = "$KEY1,val,,ue1,$KEY2,,,value2,";
    assert_eq!(fields(body), vec!["$KEY1", "val,ue1", "$KEY2,", "value2"]);
    let text = Text::try_from(",$KEY1,val,,ue1,$KEY2,,,value2,").unwrap();
    assert_eq!(text.pairs.len(), 2);
    assert_eq!(value(&text, "$KEY1"), Some("val,ue1"));
    assert_eq!(value(&text, "$KEY2,"), Some("value2"));
    assert_eq!(value(&text, "$KEY2"), None);
}

#[test]
fn text_keys_uppercased_last_wins() {
    let text = Text::try_from("/$par/3/$PAR/4/").unwrap();
    assert_eq!(text.pairs.len(), 1);
    assert_eq!(value(&text, "$PAR"), Some("4"));
    assert_eq!(value(&text, "$par"), None);
}

#[test]
fn text_uppercase_is_unicode() {
    let text = Text::try_from("|straße|x|").unwrap();
    assert_eq!(value(&text, "STRASSE"), Some("x"));
}

#[test]
fn text_values_keep_case() {
    let text = Text::try_from("|$cyt|FACSCalibur Mixed|").unwrap();
    assert_eq!(value(&text, "$CYT"), Some("FACSCalibur Mixed"));
}

#[test]
fn text_errors() {
    assert_eq!(Text::try_from("").err(), Some(TextError));
    assert_eq!(Text::try_from(",").err(), Some(TextError));
    assert_eq!(Text::try_from(",ab").err(), Some(TextError));
    assert_eq!(Text::try_from(",ab,cd,ef").err(), Some(TextError));
    assert_eq!(Text::try_from(",ab,cd,ef,").err(), Some(TextError));
    assert_eq!(Text::try_from(",,ab,cd,ef").err(), Some(TextError));
}

#[test]
fn text_without_trailing_delimiter() {
    let text = Text::try_from("\u{c}A\u{c}b").unwrap();
    assert_eq!(text.delimiter, '\u{c}');
    assert_eq!(value(&text, "A"), Some("b"));
}

#[test]
fn text_encode() {
    let mut text = Text::new(',');
    text.insert("$KEY1".into(), "val,ue1".into());
    text.insert("$KEY2".into(), "v".into());
    text.insert("$KEY1".into(), "w,".into());
    assert_eq!(text.encode(), ",$KEY1,w,,,$KEY2,v");
}

#[test]
fn text_encode_decode_round_trip() {
    let original = Text::try_from("/$MODE/L/$P1N/FSC//H/$BYTEORD/1,2,3,4/").unwrap();
    let again = Text::try_from(original.encode().as_str()).unwrap();
    assert_eq!(again.delimiter, '/');
    assert_eq!(again.pairs.len(), original.pairs.len());
    for (k, v) in &original.pairs {
        assert_eq!(value(&again, k), Some(v.as_str()));
    }
    assert_eq!(value(&again, "$P1N"), Some("FSC/H"));
}

#[test]
fn fields_single_pair() {
    assert_eq!(fields("ab,cd"), vec!["ab", "cd"]);
}

#[test]
fn fields_multiple_pairs() {
    assert_eq!(fields("ab,cd,ef,gh"), vec!["ab", "cd", "ef", "gh"]);
}

#[test]
fn fields_odd_count() {
    assert_eq!(fields("ab,cd,ef,gh,ij"), vec!["ab", "cd", "ef", "gh", "ij"]);
}

#[test]
fn fields_escaped_pairs() {
    assert_eq!(fields("ab,,,c,,d"), vec!["ab,", "c,d"]);
}

#[test]
fn fields_escaped_middle() {
    assert_eq!(fields("a,,b,cd"), vec!["a,b", "cd"]);
}

#[test]
fn fields_escaped_end() {
    assert_eq!(fields("ab,,,cd"), vec!["ab,", "cd"]);
}

#[test]
fn fields_plain() {
    assert_eq!(fields("ab"), vec!["ab"]);
}

#[test]
fn fields_escaped_start() {
    assert_eq!(fields(",,ab"), vec![",ab"]);
}

#[test]
fn fields_escaped_only() {
    assert_eq!(fields(",,"), vec![","]);
}

#[test]
fn fields_escaped_multiple() {
    assert_eq!(fields("a,,,,b"), vec!["a,,b"]);
}

#[test]
fn fields_unescaped() {
    assert_eq!(fields("a,b"), vec!["a", "b"]);
}

#[test]
fn fields_escaped_then_unescaped() {
    assert_eq!(fields("a,,,b"), vec!["a,", "b"]);
}

#[test]
fn fields_terminated() {
    assert_eq!(fields("ab,"), vec!["ab"]);
}

#[test]
fn fields_leading_single_delimiter_is_empty_field() {
    assert_eq!(fields(",ab"), vec!["", "ab"]);
}

#[test]
fn fields_empty() {
    assert!(fields("").is_empty());
}

#[test]
fn text_key_that_uppercases_onto_delimiter() {
    let text = Text::try_from("AbAcAaxAy").unwrap();
    assert_eq!(value(&text, "B"), Some("c"));
    assert_eq!(value(&text, "AX"), Some("y"));
    assert_eq!(text.encode(), "ABAcAAAXAy");
    let again = Text::try_from(text.encode().as_str()).unwrap();
    assert_eq!(value(&again, "B"), Some("cA"));
    assert_eq!(value(&again, "X"), Some("y"));
    assert_eq!(value(&again, "AX"), None);
}
