use exquisite_verse::DeobfuscationError;
use exquisite_verse::Poem;

const ROSES_CLEAR: &str = "Roses are red\nViolets are blue\nSugar is sweet\nAnd so are you.";
const ROSES_SEMI: &str =
    "Um9zZXMgYXJlIHJlZA==\nVmlvbGV0cyBhcmUgYmx1ZQ==\nU3VnYXIgaXMgc3dlZXQ=\nAnd so are you.";
const ROSES_FULL: &str =
    "Um9zZXMgYXJlIHJlZA==\nVmlvbGV0cyBhcmUgYmx1ZQ==\nU3VnYXIgaXMgc3dlZXQ=\nQW5kIHNvIGFyZSB5b3Uu";

#[test]
fn test_poem() {
    let test_poem: Poem = Poem::new("Roses are red\nViolets are blue\nSugar is sweet\nAnd so are you.");
    println!("{}", test_poem.as_cleartext());
    println!("{}", test_poem.as_semi_obfuscated());
    println!("{}", test_poem.as_fully_obfuscated());
}

#[test]
fn single_line_renderings() {
    let p = Poem::new("Roses are red");
    assert_eq!(p.line_count(), 1);
    assert_eq!(p.as_cleartext(), "Roses are red");
    assert_eq!(p.as_semi_obfuscated(), "Roses are red");
    assert_eq!(p.as_fully_obfuscated(), "Um9zZXMgYXJlIHJlZA==");
    assert_eq!(p.line_as_base64(0), "Um9zZXMgYXJlIHJlZA==");
}

#[test]
fn example_renderings() {
    let p = Poem::new(ROSES_CLEAR);
    assert_eq!(p.line_count(), 4);
    assert_eq!(p.as_cleartext(), ROSES_CLEAR);
    assert_eq!(p.as_semi_obfuscated(), ROSES_SEMI);
    assert_eq!(p.as_fully_obfuscated(), ROSES_FULL);
}

#[test]
fn example_decodings() {
    let semi = Poem::from_semi_obfuscated(ROSES_SEMI).unwrap();
    assert_eq!(semi.as_cleartext(), ROSES_CLEAR);
    let full = Poem::from_fully_obfuscated(ROSES_FULL).unwrap();
    assert_eq!(full.as_cleartext(), ROSES_CLEAR);
}

#[test]
fn round_trip_fully() {
    let p = Poem::new(ROSES_CLEAR);
    let q = Poem::from_fully_obfuscated(&p.as_fully_obfuscated()).unwrap();
    assert_eq!(q.line_count(), p.line_count());
    for i in 0..p.line_count() {
        assert_eq!(q.line(i).as_str(), p.line(i).as_str());
    }
}

#[test]
fn round_trip_semi() {
    let p = Poem::new(ROSES_CLEAR);
    let q = Poem::from_semi_obfuscated(&p.as_semi_obfuscated()).unwrap();
    assert_eq!(q.line_count(), p.line_count());
    for i in 0..p.line_count() {
        assert_eq!(q.line(i).as_str(), p.line(i).as_str());
    }
}

#[test]
fn round_trip_with_empty_lines() {
    let p = Poem::new("first\n\nthird\n");
    assert_eq!(p.line_count(), 4);
    assert_eq!(p.line(1).as_str(), "");
    assert_eq!(p.line(3).as_str(), "");
    let full = Poem::from_fully_obfuscated(&p.as_fully_obfuscated()).unwrap();
    assert_eq!(full.as_cleartext(), "first\n\nthird\n");
    let semi = Poem::from_semi_obfuscated(&p.as_semi_obfuscated()).unwrap();
    assert_eq!(semi.as_cleartext(), "first\n\nthird\n");
}

#[test]
fn rendering_is_idempotent() {
    let p = Poem::new(ROSES_CLEAR);
    assert_eq!(p.as_cleartext(), p.as_cleartext());
    assert_eq!(p.as_semi_obfuscated(), p.as_semi_obfuscated());
    assert_eq!(p.as_fully_obfuscated(), p.as_fully_obfuscated());
}

#[test]
fn empty_text_is_one_empty_line() {
    let p = Poem::new("");
    assert_eq!(p.line_count(), 1);
    assert_eq!(p.line(0).as_str(), "");
    assert_eq!(p.as_cleartext(), "");
    assert_eq!(p.as_semi_obfuscated(), "");
    assert_eq!(p.as_fully_obfuscated(), "");
}

#[test]
fn zero_line_poem_renders_empty() {
    let p = Poem::default();
    assert_eq!(p.line_count(), 0);
    assert_eq!(p.as_cleartext(), "");
    assert_eq!(p.as_semi_obfuscated(), "");
    assert_eq!(p.as_fully_obfuscated(), "");
}

#[test]
fn empty_line_round_trips_as_padding() {
    let p = Poem::new("a\n");
    assert_eq!(p.line_count(), 2);
    assert_eq!(p.as_semi_obfuscated(), "YQ==\n");
    let q = Poem::from_semi_obfuscated("YQ==\n").unwrap();
    assert_eq!(q.line_count(), 2);
    assert_eq!(q.line(0).as_str(), "a");
    assert_eq!(q.line(1).as_str(), "");
}

#[test]
fn malformed_base64_is_rejected() {
    let r = Poem::from_semi_obfuscated("not-valid-base64!\nAnd so are you.");
    assert_eq!(r.unwrap_err(), DeobfuscationError::Base64);
}

#[test]
fn malformed_import_leaves_poem_untouched() {
    let mut held = Poem::new(ROSES_CLEAR);
    if let Ok(p) = Poem::from_semi_obfuscated("not-valid-base64!\nAnd so are you.") {
        held = p;
    }
    assert_eq!(held.as_cleartext(), ROSES_CLEAR);
}

#[test]
fn invalid_utf8_is_rejected() {
    // "/w==" is valid base64 for the single byte 0xFF, which is not UTF-8.
    let r = Poem::from_fully_obfuscated("/w==");
    assert_eq!(r.unwrap_err(), DeobfuscationError::Utf8);
    let r = Poem::from_semi_obfuscated("/w==\nlast");
    assert_eq!(r.unwrap_err(), DeobfuscationError::Utf8);
}

#[test]
fn fully_obfuscated_rejects_cleartext_last_line() {
    let r = Poem::from_fully_obfuscated("QW5kIHNvIGFyZSB5b3Uu\nAnd so are you.");
    assert_eq!(r.unwrap_err(), DeobfuscationError::Base64);
}

#[test]
fn add_line_appends_one_line() {
    let mut p = Poem::new(ROSES_CLEAR);
    p.add_line("new line");
    assert_eq!(p.line_count(), 5);
    assert_eq!(p.line(0).as_str(), "Roses are red");
    assert_eq!(p.line(1).as_str(), "Violets are blue");
    assert_eq!(p.line(2).as_str(), "Sugar is sweet");
    assert_eq!(p.line(3).as_str(), "And so are you.");
    assert_eq!(p.line(4).as_str(), "new line");
}

#[test]
fn add_line_to_zero_line_poem() {
    let mut p = Poem::default();
    p.add_line("only");
    assert_eq!(p.line_count(), 1);
    assert_eq!(p.as_cleartext(), "only");
    assert_eq!(p.as_semi_obfuscated(), "only");
}

#[test]
fn line_as_base64_per_line() {
    let p = Poem::new(ROSES_CLEAR);
    assert_eq!(p.line_as_base64(0), "Um9zZXMgYXJlIHJlZA==");
    assert_eq!(p.line_as_base64(3), "QW5kIHNvIGFyZSB5b3Uu");
}

#[test]
fn round_trip_non_ascii() {
    let text = "héllo\nsnow ☃ line\nlast";
    let p = Poem::new(text);
    assert_eq!(p.line_as_base64(0), "aMOpbGxv");
    let full = Poem::from_fully_obfuscated(&p.as_fully_obfuscated()).unwrap();
    assert_eq!(full.as_cleartext(), text);
    let semi = Poem::from_semi_obfuscated(&p.as_semi_obfuscated()).unwrap();
    assert_eq!(semi.as_cleartext(), text);
}

#[test]
fn embedded_separator_splits_on_round_trip() {
    // add_line accepts a line holding the separator verbatim; the next
    // cleartext round trip then splits it into two lines.
    let mut p = Poem::default();
    p.add_line("two\nlines");
    assert_eq!(p.line_count(), 1);
    let q = Poem::new(&p.as_cleartext());
    assert_eq!(q.line_count(), 2);
    assert_eq!(q.line(0).as_str(), "two");
    assert_eq!(q.line(1).as_str(), "lines");
}

#[test]
fn error_descriptions_name_the_stage() {
    let base64 = Poem::from_fully_obfuscated("!!!").unwrap_err();
    assert_eq!(base64.describe(), "a segment is not valid base64");
    let utf8 = Poem::from_fully_obfuscated("/w==").unwrap_err();
    assert_eq!(utf8.describe(), "decoded bytes are not valid UTF-8 text");
}
