use vstd::prelude::*;
use crate::text::{bytes_of, utf8_of};

verus! {

/// A document format besides JSON.
#[derive(Debug, Clone, Copy, PartialEq, Eq, Structural)]
pub enum ExtendedFormat {
    Yaml,
    Xml,
    Toml,
}

/// Why a format name was refused.
#[derive(Debug, Clone, PartialEq, Eq)]
pub enum FormatError {
    /// The name is none of the supported formats; it holds the name as given.
    Unsupported(String),
}

/// `s` with its letters in lower case.
pub uninterp spec fn lower_of(s: Seq<char>) -> Seq<char>;

/// Unicode white space (the `White_Space` property), as `char::is_whitespace` has it.
pub open spec fn is_white(c: char) -> bool {
    ('\u{9}' <= c && c <= '\u{d}') || c == ' ' || c == '\u{85}' || c == '\u{a0}' || c == '\u{1680}'
        || ('\u{2000}' <= c && c <= '\u{200a}') || c == '\u{2028}' || c == '\u{2029}' || c == '\u{202f}'
        || c == '\u{205f}' || c == '\u{3000}'
}

/// True when `s` is made of white space only.
pub open spec fn blank(s: Seq<char>) -> bool {
    forall|k: int| 0 <= k < s.len() ==> is_white(#[trigger] s[k])
}

/// Relies on `str::to_lowercase`: the result depends on the characters alone.
#[verifier::external_body]
fn lowercase(s: &str) -> (r: String)
    ensures
        r@ == lower_of(s@),
{
    s.to_lowercase()
}

/// `r` is `s` without its leading and trailing white space.
pub open spec fn trimmed(s: Seq<char>, r: Seq<char>) -> bool {
    exists|i: int, j: int| #[trigger] trimmed_at(s, r, i, j)
}

/// `r` is `s[i..j]`, everything outside it is white space, and its ends are not.
pub open spec fn trimmed_at(s: Seq<char>, r: Seq<char>, i: int, j: int) -> bool {
    &&& 0 <= i <= j <= s.len()
    &&& r == s.subrange(i, j)
    &&& forall|k: int| 0 <= k < i ==> is_white(#[trigger] s[k])
    &&& forall|k: int| j <= k < s.len() ==> is_white(#[trigger] s[k])
    &&& i < j ==> !is_white(s[i]) && !is_white(s[j - 1])
}

/// Relies on `str::trim`: the part of `s` between its leading and its
/// trailing white space.
#[verifier::external_body]
fn trim(s: &str) -> (r: &str)
    ensures
        trimmed(s@, r@),
{
    s.trim()
}

/// True when `s` is made of white space only.
fn is_blank(s: &str) -> (r: bool)
    ensures
        r == blank(s@),
{
    let t = trim(s);
    let ghost ij = choose|i: int, j: int| #[trigger] trimmed_at(s@, t@, i, j);
    proof {
        let (i, j) = ij;
        if i == j {
            assert forall|k: int| 0 <= k < s@.len() implies is_white(#[trigger] s@[k]) by {
                if k < i {
                } else {
                }
            }
        }
    }
    t.is_empty()
}

/// The format a lower-case name stands for.
pub open spec fn format_named(t: Seq<char>) -> Option<ExtendedFormat> {
    if t == "yaml"@ || t == "yml"@ {
        Some(ExtendedFormat::Yaml)
    } else if t == "xml"@ {
        Some(ExtendedFormat::Xml)
    } else if t == "toml"@ {
        Some(ExtendedFormat::Toml)
    } else {
        None
    }
}

/// True when `pat` stands in `b` at some position.
pub open spec fn holds_at_some(b: Seq<u8>, pat: Seq<u8>) -> bool {
    exists|i: int| 0 <= i && i + pat.len() <= b.len() && #[trigger] b.subrange(i, i + pat.len()) == pat
}

/// How many times byte `c` occurs in `b`.
pub open spec fn count_byte(b: Seq<u8>, c: u8) -> nat
    decreases b.len(),
{
    if b.len() == 0 {
        0
    } else {
        count_byte(b.drop_last(), c) + if b.last() == c { 1nat } else { 0nat }
    }
}

/// Diagnostics for a TOML document.
pub open spec fn toml_diagnostics(s: Seq<char>) -> Seq<Seq<char>> {
    let b = utf8_of(s);
    let d1: Seq<Seq<char>> = if blank(s) { seq!["TOML document is empty"@] } else { seq![] };
    if holds_at_some(b, seq![9u8]) && !holds_at_some(b, seq![39u8, 39u8, 39u8]) {
        d1.push("TOML should use spaces for indentation outside of strings"@)
    } else {
        d1
    }
}

/// Diagnostics for an XML document.
pub open spec fn xml_diagnostics(s: Seq<char>) -> Seq<Seq<char>> {
    let b = utf8_of(s);
    let d1: Seq<Seq<char>> = if blank(s) { seq!["XML document is empty"@] } else { seq![] };
    let decl = seq![60u8, 63u8, 120u8, 109u8, 108u8];
    let d2 = if !(b.len() >= 5 && b.subrange(0, 5) == decl) { d1.push("Missing XML declaration"@) } else { d1 };
    if count_byte(b, 60u8) != count_byte(b, 62u8) {
        d2.push("Mismatched XML tags"@)
    } else {
        d2
    }
}

/// Diagnostics for a YAML document.
pub open spec fn yaml_diagnostics(s: Seq<char>) -> Seq<Seq<char>> {
    if blank(s) { seq!["YAML document is empty"@] } else { seq![] }
}

/// The contents of a list of strings.
pub open spec fn lines_view(v: Seq<String>) -> Seq<Seq<char>> {
    v.map_values(|s: String| s@)
}

fn contains_at_some(b: &[u8], pat: &[u8]) -> (r: bool)
    ensures
        r == holds_at_some(b@, pat@),
{
    let n = b.len();
    let m = pat.len();
    if m > n {
        return false;
    }
    let mut i: usize = 0;
    while i <= n - m
        invariant
            n == b@.len(),
            m == pat@.len(),
            m <= n,
            0 <= i <= n - m + 1,
            forall|k: int| 0 <= k < i ==> #[trigger] b@.subrange(k, k + m) != pat@,
        decreases n - m + 1 - i,
    {
        let mut j: usize = 0;
        let mut same = true;
        while j < m
            invariant
                n == b@.len(),
                m == pat@.len(),
                0 <= j <= m,
                i + m <= n,
                same == (forall|q: int| 0 <= q < j ==> b@[i + q] == pat@[q]),
            decreases m - j,
        {
            if b[i + j] != pat[j] {
                same = false;
            }
            j += 1;
        }
        if same {
            proof {
                assert(b@.subrange(i as int, i + m) =~= pat@);
            }
            return true;
        }
        proof {
            let q = choose|q: int| 0 <= q < m && b@[i + q] != pat@[q];
            assert(b@.subrange(i as int, i + m)[q] != pat@[q]);
        }
        i += 1;
    }
    false
}

fn count_of(b: &[u8], c: u8) -> (r: usize)
    ensures
        r == count_byte(b@, c),
{
    let mut n: usize = 0;
    let mut i: usize = 0;
    while i < b.len()
        invariant
            0 <= i <= b@.len(),
            n == count_byte(b@.subrange(0, i as int), c),
            n <= i,
        decreases b@.len() - i,
    {
        proof {
            assert(b@.subrange(0, i + 1).drop_last() =~= b@.subrange(0, i as int));
        }
        if b[i] == c {
            n += 1;
        }
        i += 1;
    }
    assert(b@.subrange(0, i as int) =~= b@);
    n
}

impl ExtendedFormat {
    /// The format a lower-case name stands for: `yaml` or `yml`, `xml`, `toml`.
    pub fn from_lowercase(t: &str) -> (r: Option<ExtendedFormat>)
        ensures
            r == format_named(t@),
    {
        let s = String::from_str(t);
        proof {
            reveal_strlit("yaml");
            reveal_strlit("yml");
            reveal_strlit("xml");
            reveal_strlit("toml");
        }
        if s == String::from_str("yaml") || s == String::from_str("yml") {
            Some(ExtendedFormat::Yaml)
        } else if s == String::from_str("xml") {
            Some(ExtendedFormat::Xml)
        } else if s == String::from_str("toml") {
            Some(ExtendedFormat::Toml)
        } else {
            None
        }
    }

    /// Parses a format name, ignoring case.
    pub fn from_str(s: &str) -> (r: Result<ExtendedFormat, FormatError>)
        ensures
            match format_named(lower_of(s@)) {
                Some(f) => r == Ok::<ExtendedFormat, FormatError>(f),
                None => r matches Err(FormatError::Unsupported(name)) && name@ == s@,
            },
    {
        let lowered = lowercase(s);
        match ExtendedFormat::from_lowercase(lowered.as_str()) {
            Some(f) => Ok(f),
            None => Err(FormatError::Unsupported(String::from_str(s))),
        }
    }

    /// The file extension of the format.
    pub fn extension(&self) -> (r: &'static str)
        ensures
            r@ == match self {
                ExtendedFormat::Yaml => "yaml"@,
                ExtendedFormat::Xml => "xml"@,
                ExtendedFormat::Toml => "toml"@,
            },
    {
        match self {
            ExtendedFormat::Yaml => "yaml",
            ExtendedFormat::Xml => "xml",
            ExtendedFormat::Toml => "toml",
        }
    }

    /// Diagnostics for `content` in this format.
    pub fn validate(&self, content: &str) -> (r: Result<Vec<String>, FormatError>)
        ensures
            r matches Ok(d) && lines_view(d@) == match self {
                ExtendedFormat::Yaml => yaml_diagnostics(content@),
                ExtendedFormat::Xml => xml_diagnostics(content@),
                ExtendedFormat::Toml => toml_diagnostics(content@),
            },
    {
        match self {
            ExtendedFormat::Yaml => validate_yaml(content),
            ExtendedFormat::Xml => validate_xml(content),
            ExtendedFormat::Toml => validate_toml(content),
        }
    }
}

/// Diagnostics for a YAML document.
pub fn validate_yaml(yaml: &str) -> (r: Result<Vec<String>, FormatError>)
    ensures
        r matches Ok(d) && lines_view(d@) == yaml_diagnostics(yaml@),
        yaml@.len() == 0 ==> (r matches Ok(d) && d@.len() >= 1 && d@[0]@ == "YAML document is empty"@),
{
    let mut out: Vec<String> = Vec::new();
    if is_blank(yaml) {
        out.push(String::from_str("YAML document is empty"));
    }
    assert(lines_view(out@) =~= yaml_diagnostics(yaml@));
    Ok(out)
}

/// Diagnostics for a TOML document: empty, or tabs outside multi-line strings.
pub fn validate_toml(toml: &str) -> (r: Result<Vec<String>, FormatError>)
    ensures
        r matches Ok(d) && lines_view(d@) == toml_diagnostics(toml@),
        toml@.len() == 0 ==> (r matches Ok(d) && d@.len() >= 1 && d@[0]@ == "TOML document is empty"@),
{
    let b = bytes_of(toml);
    let mut out: Vec<String> = Vec::new();
    if is_blank(toml) {
        out.push(String::from_str("TOML document is empty"));
    }
    let mut tab: Vec<u8> = Vec::new();
    tab.push(9);
    let mut quotes: Vec<u8> = Vec::new();
    quotes.push(39);
    quotes.push(39);
    quotes.push(39);
    assert(tab@ =~= seq![9u8]);
    assert(quotes@ =~= seq![39u8, 39u8, 39u8]);
    if contains_at_some(b.as_slice(), tab.as_slice()) && !contains_at_some(b.as_slice(), quotes.as_slice()) {
        out.push(String::from_str("TOML should use spaces for indentation outside of strings"));
    }
    assert(lines_view(out@) =~= toml_diagnostics(toml@));
    Ok(out)
}

/// Diagnostics for an XML document: empty, no declaration, or unbalanced
/// angle brackets.
pub fn validate_xml(xml: &str) -> (r: Result<Vec<String>, FormatError>)
    ensures
        r matches Ok(d) && lines_view(d@) == xml_diagnostics(xml@),
        xml@.len() == 0 ==> (r matches Ok(d) && d@.len() >= 1 && d@[0]@ == "XML document is empty"@),
{
    let b = bytes_of(xml);
    let mut out: Vec<String> = Vec::new();
    if is_blank(xml) {
        out.push(String::from_str("XML document is empty"));
    }
    let ghost d1 = lines_view(out@);
    let starts = b.len() >= 5 && b[0] == 60 && b[1] == 63 && b[2] == 120 && b[3] == 109 && b[4] == 108;
    proof {
        let decl = seq![60u8, 63u8, 120u8, 109u8, 108u8];
        if b@.len() >= 5 {
            if starts {
                assert(b@.subrange(0, 5) =~= decl);
            } else if b@.subrange(0, 5) == decl {
                assert(b@.subrange(0, 5)[0] == b@[0]);
                assert(b@.subrange(0, 5)[1] == b@[1]);
                assert(b@.subrange(0, 5)[2] == b@[2]);
                assert(b@.subrange(0, 5)[3] == b@[3]);
                assert(b@.subrange(0, 5)[4] == b@[4]);
            }
        }
    }
    if !starts {
        out.push(String::from_str("Missing XML declaration"));
    }
    if count_of(b.as_slice(), 60) != count_of(b.as_slice(), 62) {
        out.push(String::from_str("Mismatched XML tags"));
    }
    assert(lines_view(out@) =~= xml_diagnostics(xml@));
    Ok(out)
}

} // verus!
