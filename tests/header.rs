use fcs::header::{Header, HeaderFieldError, NumberError, zero_when_empty};

#[test]
fn header1() {
    let header = "FCS3.0         256    1545    1792  202456       0       0";
    let parsed_header = Header {
        version: "FCS3.0".into(),
        text_offsets: 256..=1545,
        data_offsets: 1792..=202456,
        analysis_offsets: 0..=0,
    };

    assert_eq!(parsed_header, Header::try_from(header).unwrap());
}

#[test]
fn header1_spaces() {
    let header = "FCS3.0         256    1545    1792  202456                ";
    let parsed_header = Header {
        version: "FCS3.0".into(),
        text_offsets: 256..=1545,
        data_offsets: 1792..=202456,
        analysis_offsets: 0..=0,
    };

    assert_eq!(parsed_header, Header::try_from(header).unwrap());
}

#[test]
fn header2() {
    let header = "FCS3.0         256    1545       0       0       0       0";
    let parsed_header = Header {
        version: "FCS3.0".into(),
        text_offsets: 256..=1545,
        data_offsets: 0..=0,
        analysis_offsets: 0..=0,
    };

    assert_eq!(parsed_header, Header::try_from(header).unwrap());
}

#[test]
fn header3() {
    let header = "FCS3.0      202451  203140    1792  202450       0       0";
    let parsed_header = Header {
        version: "FCS3.0".into(),
        text_offsets: 202451..=203140,
        data_offsets: 1792..=202450,
        analysis_offsets: 0..=0,
    };

    assert_eq!(parsed_header, Header::try_from(header).unwrap());
}

#[test]
fn write_header1() {
    let header = Header {
        version: "FCS3.0".into(),
        text_offsets: 256..=1545,
        data_offsets: 1792..=202456,
        analysis_offsets: 0..=0,
    };
    let formatted = header.to_string();

    assert_eq!(
        "FCS3.0         256    1545    1792  202456       0       0",
        formatted
    );
}

#[test]
fn write_header2() {
    let header = Header {
        version: "FCS3.0".into(),
        text_offsets: 256..=1545,
        data_offsets: 0..=0,
        analysis_offsets: 0..=0,
    };
    let formatted = header.to_string();

    assert_eq!(
        "FCS3.0         256    1545       0       0       0       0",
        formatted
    );
}

#[test]
fn write_header3() {
    let header = Header {
        version: "FCS3.0".into(),
        text_offsets: 202451..=203140,
        data_offsets: 1792..=202450,
        analysis_offsets: 0..=0,
    };
    let formatted = header.to_string();

    assert_eq!(
        "FCS3.0      202451  203140    1792  202450       0       0",
        formatted
    );
}

#[test]
fn header_round_trip_largest_offsets() {
    let header = Header {
        version: "FCS3.1".into(),
        text_offsets: 58..=99999999,
        data_offsets: 12345678..=87654321,
        analysis_offsets: 7..=10000000,
    };
    let text = header.to_string();
    assert_eq!(text.len(), 58);
    assert_eq!(Header::try_from(text.as_str()).unwrap(), header);
}

fn columns(text_start: &str, analysis_start: &str) -> String {
    format!(
        "{:<10}{:>8}{:>8}{:>8}{:>8}{:>8}{:>8}",
        "FCS3.0", text_start, "1545", "1792", "202456", analysis_start, "0"
    )
}

#[test]
fn header_letters_in_text_start() {
    let header = columns("2a6", "0");
    assert_eq!(header.len(), 58);
    assert_eq!(
        Header::try_from(header.as_str()),
        Err(HeaderFieldError::TextStart)
    );
}

#[test]
fn header_blank_text_start() {
    let header = columns("", "0");
    assert_eq!(
        Header::try_from(header.as_str()),
        Err(HeaderFieldError::TextStart)
    );
}

#[test]
fn header_blank_analysis_is_zero() {
    let header = columns("256", "");
    let parsed = Header::try_from(header.as_str()).unwrap();
    assert_eq!(parsed.analysis_offsets, 0..=0);
    assert_eq!(parsed.text_offsets, 256..=1545);
}

#[test]
fn header_bad_fields_name_the_column() {
    let base = "FCS3.0         256    1545    1792  202456       0       0";
    let cases = [
        (17, HeaderFieldError::TextStart),
        (25, HeaderFieldError::TextEnd),
        (33, HeaderFieldError::DataStart),
        (41, HeaderFieldError::DataEnd),
        (49, HeaderFieldError::AnalysisStart),
        (57, HeaderFieldError::AnalysisEnd),
    ];
    for (at, expected) in cases {
        let mut bytes = base.as_bytes().to_vec();
        bytes[at] = b'x';
        let header = String::from_utf8(bytes).unwrap();
        assert_eq!(Header::try_from(header.as_str()), Err(expected));
    }
}

#[test]
fn header_trailing_space_is_invalid() {
    let header = columns("256 ", "0");
    assert_eq!(
        Header::try_from(header.as_str()),
        Err(HeaderFieldError::TextStart)
    );
}

#[test]
fn header_plus_sign_and_tab_accepted() {
    let header = columns("\t+256", "0");
    let parsed = Header::try_from(header.as_str()).unwrap();
    assert_eq!(parsed.text_offsets, 256..=1545);
}

#[test]
fn header_lone_plus_is_invalid() {
    let header = columns("+", "0");
    assert_eq!(
        Header::try_from(header.as_str()),
        Err(HeaderFieldError::TextStart)
    );
}

#[test]
fn header_short_version_is_padded() {
    let header = Header {
        version: "FCS".into(),
        text_offsets: 1..=2,
        data_offsets: 3..=4,
        analysis_offsets: 0..=0,
    };
    assert_eq!(
        header.to_string(),
        "FCS              1       2       3       4       0       0"
    );
}

#[test]
fn header_too_short() {
    assert_eq!(Header::try_from("FCS3.0   "), Err(HeaderFieldError::Length));
    assert_eq!(Header::try_from(""), Err(HeaderFieldError::Length));
}

#[test]
fn zero_when_empty_only_for_blank() {
    assert_eq!(zero_when_empty(NumberError::Empty), Ok(0));
    assert_eq!(
        zero_when_empty(NumberError::InvalidDigit),
        Err(NumberError::InvalidDigit)
    );
}
