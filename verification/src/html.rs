//! The configuration page: field labels, HTML escaping, and the page
//! assembled from the fields and the author's page fragments.
use vstd::prelude::*;
use crate::text::str_equal;

verus! {

broadcast use vstd::string::group_string_axioms;

/// Appends `c` to `s`.
///
/// Calls `String::push`, which appends the character to the end of the
/// string.
#[verifier::external_body]
fn string_push(s: &mut String, c: char)
    ensures
        final(s)@ == old(s)@.push(c),
{
    s.push(c);
}

/// ASCII upper-casing of one character.
pub open spec fn ascii_upper(c: char) -> char {
    if 'a' <= c <= 'z' {
        ((c as u32) - 32) as char
    } else {
        c
    }
}

/// A field name as a label: `_` becomes a space, and the first character
/// and each one after `_` are upper-cased (ASCII only).  `cap` tells whether
/// the next character starts a word.
pub open spec fn label_from(s: Seq<char>, cap: bool) -> Seq<char>
    decreases s.len(),
{
    if s.len() == 0 {
        seq![]
    } else if s[0] == '_' {
        seq![' '] + label_from(s.drop_first(), true)
    } else if cap {
        seq![ascii_upper(s[0])] + label_from(s.drop_first(), false)
    } else {
        seq![s[0]] + label_from(s.drop_first(), false)
    }
}

/// The label of a field name.
pub open spec fn label_text(name: Seq<char>) -> Seq<char> {
    label_from(name, true)
}

/// The HTML escape of one character: `&`, `"`, `<` and `>` become entities.
pub open spec fn escape_char(c: char) -> Seq<char> {
    if c == '&' {
        "&amp;"@
    } else if c == '"' {
        "&quot;"@
    } else if c == '<' {
        "&lt;"@
    } else if c == '>' {
        "&gt;"@
    } else {
        seq![c]
    }
}

/// The HTML escape of a text.
pub open spec fn html_escape(s: Seq<char>) -> Seq<char>
    decreases s.len(),
{
    if s.len() == 0 {
        seq![]
    } else {
        html_escape(s.drop_last()) + escape_char(s.last())
    }
}

/// Upper-cases an ASCII letter, as `char::to_ascii_uppercase` does.
fn upper_ascii(c: char) -> (r: char)
    ensures
        r == ascii_upper(c),
{
    if 'a' <= c && c <= 'z' {
        let b = (c as u8) - 32;
        b as char
    } else {
        c
    }
}

/// Turns a field name into a label: `use_dhcp` becomes `Use Dhcp`.
pub fn to_label(name: &str) -> (r: String)
    ensures
        r@ == label_text(name@),
{
    let mut result = String::new();
    let mut cap = true;
    let n = name.unicode_len();
    let mut i: usize = 0;
    assert(name@.skip(0) =~= name@);
    while i < n
        invariant
            n == name@.len(),
            i <= n,
            label_text(name@) == result@ + label_from(name@.skip(i as int), cap),
        decreases n - i,
    {
        let ch = name.get_char(i);
        let ghost rest = name@.skip(i as int);
        assert(rest[0] == ch);
        assert(rest.drop_first() =~= name@.skip(i + 1));
        let ghost before = result@;
        let ghost prev_cap = cap;
        if ch == '_' {
            string_push(&mut result, ' ');
            cap = true;
        } else if cap {
            string_push(&mut result, upper_ascii(ch));
            cap = false;
        } else {
            string_push(&mut result, ch);
        }
        assert(result@ + label_from(name@.skip(i + 1), cap) =~= before + label_from(rest, prev_cap));
        i += 1;
    }
    assert(name@.skip(i as int) =~= Seq::<char>::empty());
    assert(result@ + Seq::<char>::empty() =~= result@);
    result
}


/// Escapes `&`, `"`, `<` and `>` for use inside HTML text or attribute
/// values.
pub fn escape_html(s: &str) -> (r: String)
    ensures
        r@ == html_escape(s@),
{
    let mut result = String::new();
    let n = s.unicode_len();
    let mut i: usize = 0;
    assert(s@.take(0) =~= Seq::<char>::empty());
    while i < n
        invariant
            n == s@.len(),
            i <= n,
            result@ == html_escape(s@.take(i as int)),
        decreases n - i,
    {
        let ch = s.get_char(i);
        assert(s@.take(i + 1).drop_last() =~= s@.take(i as int));
        assert(s@.take(i + 1).last() == ch);
        if ch == '&' {
            result.append("&amp;");
        } else if ch == '"' {
            result.append("&quot;");
        } else if ch == '<' {
            result.append("&lt;");
        } else if ch == '>' {
            result.append("&gt;");
        } else {
            string_push(&mut result, ch);
        }
        i += 1;
    }
    assert(s@.take(n as int) =~= s@);
    result
}

// ── The page ───────────────────────────────────────────────────────────────

/// What the page needs to know of a configuration field.
pub struct HtmlField {
    /// The field name, used as the input name, in the element ids, and
    /// turned into the label.
    pub name: String,
    /// Marked secret: rendered as a password input.
    pub is_secret: bool,
    /// Of type `bool`: rendered as a checkbox.
    pub is_bool: bool,
    /// Of an integer type: rendered as a number input.
    pub is_number: bool,
    /// The text of a default value, if any.
    pub default: Option<String>,
    /// An explicit input type, if any.
    pub input_type: Option<String>,
}

/// Page fragments supplied by the configuration's author; empty when
/// absent.  They are inserted verbatim.
pub struct PageParts {
    pub css: String,
    pub js: String,
    pub header: String,
    pub footer: String,
}

/// The page's built-in stylesheet.
pub const DEFAULT_CSS: &'static str = "*{box-sizing:border-box;margin:0;padding:0}body{font-family:system-ui,sans-serif;background:#1a1a2e;color:#e0e0e0;display:flex;justify-content:center;align-items:center;min-height:100vh}form{background:#16213e;padding:2rem;border-radius:8px;width:100%;max-width:400px;box-shadow:0 4px 24px rgba(0,0,0,.4)}h1{text-align:center;margin-bottom:1.5rem;color:#e94560}label{display:block;margin-bottom:1rem;font-weight:500}input{width:100%;padding:.6rem .8rem;margin-top:.3rem;border:1px solid #0f3460;border-radius:4px;background:#1a1a2e;color:#e0e0e0;font-size:1rem}input:focus{outline:2px solid #e94560;border-color:transparent}input[type=checkbox]{width:auto;margin-right:.5rem}button{width:100%;padding:.7rem;background:#e94560;color:#fff;border:none;border-radius:4px;font-size:1rem;cursor:pointer;margin-top:1rem}button:hover{background:#c23152}";

/// The input type of a field: the explicit one, else `password` for a
/// secret, `checkbox` for a boolean, `number` for an integer, `text`
/// otherwise.
pub open spec fn field_input_type(f: HtmlField) -> Seq<char> {
    match f.input_type {
        Some(t) => t@,
        None => if f.is_secret {
            "password"@
        } else if f.is_bool {
            "checkbox"@
        } else if f.is_number {
            "number"@
        } else {
            "text"@
        },
    }
}

/// The default of a field as an attribute: ` checked` for a checkbox whose
/// default is `true`, nothing for another checkbox, and ` value="..."`,
/// escaped, for any other input.
pub open spec fn default_attribute(f: HtmlField) -> Seq<char> {
    match f.default {
        Some(d) => if field_input_type(f) == "checkbox"@ {
            if d@ == "true"@ {
                " checked"@
            } else {
                seq![]
            }
        } else {
            " value=\""@ + html_escape(d@) + "\""@
        },
        None => seq![],
    }
}

/// The label of a field, with id `provision-label-<name>` and class
/// `provision-label`.
pub open spec fn label_markup(f: HtmlField) -> Seq<char> {
    "<label for=\"provision-input-"@ + f.name@ + "\" id=\"provision-label-"@ + f.name@
        + "\" class=\"provision-label\">"@ + html_escape(label_text(f.name@)) + "</label>"@
}

/// The input of a field, with id `provision-input-<name>` and class
/// `provision-input`.
pub open spec fn input_markup(f: HtmlField) -> Seq<char> {
    "<input type=\""@ + field_input_type(f) + "\" id=\"provision-input-"@ + f.name@
        + "\" class=\"provision-input\" name=\""@ + f.name@ + "\""@ + default_attribute(f) + ">"@
}

/// The markup of one field: a wrapper with id `provision-field-<name>` and
/// class `provision-field` around the label and the input, the input first
/// for a checkbox.
pub open spec fn field_markup(f: HtmlField) -> Seq<char> {
    "<div id=\"provision-field-"@ + f.name@ + "\" class=\"provision-field\">"@ + (if field_input_type(
        f,
    ) == "checkbox"@ {
        input_markup(f) + label_markup(f)
    } else {
        label_markup(f) + input_markup(f)
    }) + "</div>"@
}

/// The markup of all fields, in order.
pub open spec fn fields_markup(fs: Seq<HtmlField>) -> Seq<char>
    decreases fs.len(),
{
    if fs.len() == 0 {
        seq![]
    } else {
        fields_markup(fs.drop_last()) + field_markup(fs.last())
    }
}

/// The whole page: head with the built-in and the author's styles; a page
/// wrapper (`provision-page`) holding the header slot (`provision-header`),
/// the form (`provision-form`) with the fields and the submit button
/// (`provision-submit`), and the footer slot (`provision-footer`); and a
/// script element only when a script was given.
pub open spec fn page_html(fields: Seq<HtmlField>, parts: PageParts) -> Seq<char> {
    "<!DOCTYPE html><html><head><meta charset=\"utf-8\"><meta name=\"viewport\" content=\"width=device-width,initial-scale=1\"><title>WiFi Setup</title><style>"@
        + DEFAULT_CSS@ + parts.css@
        + "</style></head><body><div id=\"provision-page\" class=\"provision\"><div id=\"provision-header\" class=\"provision-header\">"@
        + parts.header@
        + "</div><form method=\"post\" id=\"provision-form\" class=\"provision-form\"><h1>WiFi Setup</h1>"@
        + fields_markup(fields)
        + "<button type=\"submit\" id=\"provision-submit\" class=\"provision-submit\">Save</button></form><div id=\"provision-footer\" class=\"provision-footer\">"@
        + parts.footer@ + "</div></div>"@ + (if parts.js@.len() > 0 {
        "<script>"@ + parts.js@ + "</script>"@
    } else {
        seq![]
    }) + "</body></html>"@
}

/// The input type of a field.
fn input_type_of(f: &HtmlField) -> (r: &str)
    ensures
        r@ == field_input_type(*f),
{
    match &f.input_type {
        Some(t) => t.as_str(),
        None => if f.is_secret {
            "password"
        } else if f.is_bool {
            "checkbox"
        } else if f.is_number {
            "number"
        } else {
            "text"
        },
    }
}

/// The default attribute of a field.
fn default_attribute_of(f: &HtmlField, is_checkbox: bool) -> (r: String)
    requires
        is_checkbox == (field_input_type(*f) == "checkbox"@),
    ensures
        r@ == default_attribute(*f),
{
    match &f.default {
        Some(d) => {
            if is_checkbox {
                if str_equal(d.as_str(), "true") {
                    let mut a = String::new();
                    a.append(" checked");
                    a
                } else {
                    String::new()
                }
            } else {
                let mut a = String::new();
                a.append(" value=\"");
                let escaped = escape_html(d.as_str());
                a.append(escaped.as_str());
                a.append("\"");
                a
            }
        },
        None => String::new(),
    }
}

/// Appends the label of a field to `out`.
fn push_label(out: &mut String, f: &HtmlField)
    ensures
        final(out)@ == old(out)@ + label_markup(*f),
{
    let label = to_label(f.name.as_str());
    let escaped = escape_html(label.as_str());
    out.append("<label for=\"provision-input-");
    out.append(f.name.as_str());
    out.append("\" id=\"provision-label-");
    out.append(f.name.as_str());
    out.append("\" class=\"provision-label\">");
    out.append(escaped.as_str());
    out.append("</label>");
    assert(out@ =~= old(out)@ + label_markup(*f));
}

/// Appends the input of a field to `out`.
fn push_input(out: &mut String, f: &HtmlField, input_type: &str, default_attr: &str)
    requires
        input_type@ == field_input_type(*f),
        default_attr@ == default_attribute(*f),
    ensures
        final(out)@ == old(out)@ + input_markup(*f),
{
    out.append("<input type=\"");
    out.append(input_type);
    out.append("\" id=\"provision-input-");
    out.append(f.name.as_str());
    out.append("\" class=\"provision-input\" name=\"");
    out.append(f.name.as_str());
    out.append("\"");
    out.append(default_attr);
    out.append(">");
    assert(out@ =~= old(out)@ + input_markup(*f));
}

/// Appends the markup of one field to `out`.
fn push_field_markup(out: &mut String, f: &HtmlField)
    ensures
        final(out)@ == old(out)@ + field_markup(*f),
{
    let input_type = input_type_of(f);
    let is_checkbox = str_equal(input_type, "checkbox");
    let default_attr = default_attribute_of(f, is_checkbox);
    let ghost start = out@;
    out.append("<div id=\"provision-field-");
    out.append(f.name.as_str());
    out.append("\" class=\"provision-field\">");
    let ghost head = out@;
    if is_checkbox {
        push_input(out, f, input_type, default_attr.as_str());
        push_label(out, f);
    } else {
        push_label(out, f);
        push_input(out, f, input_type, default_attr.as_str());
    }
    out.append("</div>");
    assert(out@ =~= start + field_markup(*f));
}

/// Builds the configuration page for the given fields and page fragments,
/// as the derive macro embeds it.
pub fn generate_html(fields: &[HtmlField], parts: &PageParts) -> (r: String)
    ensures
        r@ == page_html(fields@, *parts),
{
    let mut html = String::new();
    html.append("<!DOCTYPE html><html><head><meta charset=\"utf-8\"><meta name=\"viewport\" content=\"width=device-width,initial-scale=1\"><title>WiFi Setup</title><style>");
    html.append(DEFAULT_CSS);
    html.append(parts.css.as_str());
    html.append("</style></head><body><div id=\"provision-page\" class=\"provision\"><div id=\"provision-header\" class=\"provision-header\">");
    html.append(parts.header.as_str());
    html.append("</div><form method=\"post\" id=\"provision-form\" class=\"provision-form\"><h1>WiFi Setup</h1>");
    let ghost prefix = html@;
    let mut i: usize = 0;
    assert(fields@.take(0) =~= Seq::<HtmlField>::empty());
    assert(prefix + fields_markup(Seq::<HtmlField>::empty()) =~= prefix);
    while i < fields.len()
        invariant
            i <= fields@.len(),
            html@ == prefix + fields_markup(fields@.take(i as int)),
        decreases fields@.len() - i,
    {
        push_field_markup(&mut html, &fields[i]);
        assert(fields@.take(i + 1).drop_last() =~= fields@.take(i as int));
        assert(fields@.take(i + 1).last() == fields@[i as int]);
        i += 1;
    }
    assert(fields@.take(i as int) =~= fields@);
    html.append("<button type=\"submit\" id=\"provision-submit\" class=\"provision-submit\">Save</button></form><div id=\"provision-footer\" class=\"provision-footer\">");
    html.append(parts.footer.as_str());
    html.append("</div></div>");
    if parts.js.as_str().unicode_len() > 0 {
        html.append("<script>");
        html.append(parts.js.as_str());
        html.append("</script>");
    }
    html.append("</body></html>");
    assert(html@ =~= page_html(fields@, *parts));
    html
}


/// A field's input carries ` checked` only when the field is a checkbox
/// whose default is exactly `true`; a field without a default gets no
/// attribute after its name, so a boolean without a default starts
/// unchecked.
pub proof fn lemma_checked_only_with_true_default(f: HtmlField)
    ensures
        default_attribute(f) == " checked"@ <==> (field_input_type(f) == "checkbox"@
            && f.default is Some && f.default->0@ == "true"@),
        f.default is None ==> input_markup(f) == "<input type=\""@ + field_input_type(f)
            + "\" id=\"provision-input-"@ + f.name@ + "\" class=\"provision-input\" name=\""@
            + f.name@ + "\">"@,
{
    reveal_strlit(" checked");
    reveal_strlit(" value=\"");
    match f.default {
        Some(d) => {
            if field_input_type(f) != "checkbox"@ {
                let a = " value=\""@ + html_escape(d@) + "\""@;
                assert(a[1] == 'v');
                assert(" checked"@[1] == 'c');
            }
        },
        None => {
            reveal_strlit("\"");
            reveal_strlit(">");
            reveal_strlit("\">");
            assert(default_attribute(f) == Seq::<char>::empty());
            assert("\""@ + Seq::<char>::empty() + ">"@ =~= "\">"@);
            assert(input_markup(f) =~= "<input type=\""@ + field_input_type(f)
                + "\" id=\"provision-input-"@ + f.name@ + "\" class=\"provision-input\" name=\""@
                + f.name@ + "\">"@);
        },
    }
}

} // verus!
