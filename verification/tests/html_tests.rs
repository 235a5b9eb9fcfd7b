use provisioner::html::{escape_html, generate_html, to_label, HtmlField, PageParts, DEFAULT_CSS};

fn field(name: &str) -> HtmlField {
    HtmlField {
        name: name.to_string(),
        is_secret: false,
        is_bool: false,
        is_number: false,
        default: None,
        input_type: None,
    }
}

fn no_parts() -> PageParts {
    PageParts {
        css: String::new(),
        js: String::new(),
        header: String::new(),
        footer: String::new(),
    }
}

const PAGE_HEAD: &str = "<!DOCTYPE html><html><head><meta charset=\"utf-8\"><meta name=\"viewport\" content=\"width=device-width,initial-scale=1\"><title>WiFi Setup</title><style>";

fn text_field_markup(name: &str, label: &str, input_type: &str, extra: &str) -> String {
    format!(
        "<div id=\"provision-field-{n}\" class=\"provision-field\"><label for=\"provision-input-{n}\" id=\"provision-label-{n}\" class=\"provision-label\">{l}</label><input type=\"{t}\" id=\"provision-input-{n}\" class=\"provision-input\" name=\"{n}\"{e}></div>",
        n = name,
        l = label,
        t = input_type,
        e = extra
    )
}

#[test]
fn label_capitalises_words() {
    assert_eq!(to_label("use_dhcp"), "Use Dhcp");
    assert_eq!(to_label("ssid"), "Ssid");
    assert_eq!(to_label(""), "");
}

#[test]
fn label_of_leading_and_double_underscores() {
    assert_eq!(to_label("_a__b"), " A  B");
    assert_eq!(to_label("x_"), "X ");
}

#[test]
fn label_leaves_non_letters() {
    assert_eq!(to_label("port_8080x"), "Port 8080x");
    assert_eq!(to_label("élan_vital"), "élan Vital");
}

#[test]
fn escape_html_entities() {
    assert_eq!(escape_html("a&b"), "a&amp;b");
    assert_eq!(escape_html("\"<tag>\""), "&quot;&lt;tag&gt;&quot;");
    assert_eq!(escape_html("plain"), "plain");
    assert_eq!(escape_html(""), "");
    assert_eq!(escape_html("&amp;"), "&amp;amp;");
}

#[test]
fn page_for_no_fields() {
    let html = generate_html(&[], &no_parts());
    let expected = format!(
        "{}{}</style></head><body><div id=\"provision-page\" class=\"provision\"><div id=\"provision-header\" class=\"provision-header\"></div><form method=\"post\" id=\"provision-form\" class=\"provision-form\"><h1>WiFi Setup</h1><button type=\"submit\" id=\"provision-submit\" class=\"provision-submit\">Save</button></form><div id=\"provision-footer\" class=\"provision-footer\"></div></div></body></html>",
        PAGE_HEAD, DEFAULT_CSS
    );
    assert_eq!(html, expected);
}

#[test]
fn page_field_markup() {
    let mut secret = field("password");
    secret.is_secret = true;
    let mut flag = field("use_dhcp");
    flag.is_bool = true;
    flag.default = Some("true".to_string());
    let mut port = field("port");
    port.is_number = true;
    let html = generate_html(&[field("ssid"), secret, flag, port], &no_parts());
    let expected_fields = [
        text_field_markup("ssid", "Ssid", "text", ""),
        text_field_markup("password", "Password", "password", ""),
        "<div id=\"provision-field-use_dhcp\" class=\"provision-field\"><input type=\"checkbox\" id=\"provision-input-use_dhcp\" class=\"provision-input\" name=\"use_dhcp\" checked><label for=\"provision-input-use_dhcp\" id=\"provision-label-use_dhcp\" class=\"provision-label\">Use Dhcp</label></div>".to_string(),
        text_field_markup("port", "Port", "number", ""),
    ]
    .join("");
    assert!(html.contains(&expected_fields));
}

#[test]
fn checkbox_default_false_is_unchecked() {
    let mut flag = field("use_dhcp");
    flag.is_bool = true;
    flag.default = Some("false".to_string());
    let html = generate_html(&[flag], &no_parts());
    assert!(html.contains("name=\"use_dhcp\"><label"));
    assert!(!html.contains("checked"));
}

#[test]
fn documented_hooks_are_present() {
    let html = generate_html(&[field("ssid")], &no_parts());
    for hook in [
        "id=\"provision-page\" class=\"provision\"",
        "id=\"provision-header\" class=\"provision-header\"",
        "id=\"provision-footer\" class=\"provision-footer\"",
        "id=\"provision-form\" class=\"provision-form\"",
        "id=\"provision-field-ssid\" class=\"provision-field\"",
        "id=\"provision-label-ssid\" class=\"provision-label\"",
        "id=\"provision-input-ssid\" class=\"provision-input\"",
        "id=\"provision-submit\" class=\"provision-submit\"",
    ] {
        assert!(html.contains(hook), "{}", hook);
    }
}

#[test]
fn explicit_input_type_wins_over_secret_and_bool() {
    let mut f = field("pin");
    f.is_secret = true;
    f.is_bool = true;
    f.is_number = true;
    f.input_type = Some("tel".to_string());
    let html = generate_html(&[f], &no_parts());
    assert!(html.contains(&text_field_markup("pin", "Pin", "tel", "")));
}

#[test]
fn secret_wins_over_bool_and_number() {
    let mut f = field("hidden");
    f.is_secret = true;
    f.is_bool = true;
    f.is_number = true;
    let html = generate_html(&[f], &no_parts());
    assert!(html.contains("<input type=\"password\" id=\"provision-input-hidden\""));
}

#[test]
fn default_value_is_escaped() {
    let mut f = field("greeting");
    f.default = Some("a\"<b>&".to_string());
    let html = generate_html(&[f], &no_parts());
    assert!(html.contains("name=\"greeting\" value=\"a&quot;&lt;b&gt;&amp;\">"));
}

#[test]
fn page_parts_are_inserted() {
    let parts = PageParts {
        css: "body{}".to_string(),
        js: "alert(1)".to_string(),
        header: "<h1>Test</h1>".to_string(),
        footer: "<p>end</p>".to_string(),
    };
    let html = generate_html(&[field("ssid")], &parts);
    assert!(html.starts_with(PAGE_HEAD));
    assert!(html.contains(&format!(
        "{}body{{}}</style></head><body><div id=\"provision-page\" class=\"provision\"><div id=\"provision-header\" class=\"provision-header\"><h1>Test</h1></div><form",
        DEFAULT_CSS
    )));
    assert!(html.ends_with(
        "</form><div id=\"provision-footer\" class=\"provision-footer\"><p>end</p></div></div><script>alert(1)</script></body></html>"
    ));
}

#[test]
fn no_script_without_js() {
    let html = generate_html(&[field("ssid")], &no_parts());
    assert!(!html.contains("<script>"));
    assert!(html.ends_with("</div></div></body></html>"));
}
