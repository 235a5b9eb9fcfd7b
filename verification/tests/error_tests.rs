use provisioner::error::ParseError;

#[test]
fn error_as_str_returns_expected_descriptions() {
    assert_eq!(ParseError::MissingField("ssid").as_str(), "missing field");
    assert_eq!(
        ParseError::InvalidValue("use_dhcp").as_str(),
        "invalid value"
    );
    assert_eq!(ParseError::InvalidEncoding.as_str(), "invalid encoding");
    assert_eq!(ParseError::MalformedEncoding.as_str(), "malformed encoding");
}
