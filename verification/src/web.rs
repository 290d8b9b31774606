//! Escaping for the browser front end: XML shown inside HTML, and text
//! placed inside a double-quoted JavaScript string.
use vstd::prelude::*;

use crate::text::{append_str, push_char, str_to_chars};

verus! {

/// How one character is written inside HTML: `&`, `<` and `>` become
/// entities.
pub open spec fn html_char(c: char) -> Seq<char> {
    if c == '&' {
        "&amp;"@
    } else if c == '<' {
        "&lt;"@
    } else if c == '>' {
        "&gt;"@
    } else {
        seq![c]
    }
}

/// `s` written inside HTML.
pub open spec fn html_escaped(s: Seq<char>) -> Seq<char>
    decreases s.len(),
{
    if s.len() == 0 {
        Seq::empty()
    } else {
        html_escaped(s.drop_last()) + html_char(s.last())
    }
}

/// How one character is written inside a double-quoted JavaScript string:
/// backslash, double quote, line feed and carriage return are escaped with
/// a backslash.
pub open spec fn js_char(c: char) -> Seq<char> {
    if c == '\\' {
        "\\\\"@
    } else if c == '"' {
        "\\\""@
    } else if c == '\n' {
        "\\n"@
    } else if c == '\r' {
        "\\r"@
    } else {
        seq![c]
    }
}

/// `s` written inside a double-quoted JavaScript string.
pub open spec fn js_escaped(s: Seq<char>) -> Seq<char>
    decreases s.len(),
{
    if s.len() == 0 {
        Seq::empty()
    } else {
        js_escaped(s.drop_last()) + js_char(s.last())
    }
}

/// Escapes `&`, `<` and `>` so that `s` can be shown inside HTML.
pub fn escape_html(s: &str) -> (r: String)
    ensures
        r@ == html_escaped(s@),
{
    let cs = str_to_chars(s);
    let mut out = String::new();
    let mut i: usize = 0;
    while i < cs.len()
        invariant
            cs@ == s@,
            i <= cs.len(),
            out@ == html_escaped(s@.subrange(0, i as int)),
        decreases cs.len() - i,
    {
        let c = cs[i];
        if c == '&' {
            append_str(&mut out, "&amp;");
        } else if c == '<' {
            append_str(&mut out, "&lt;");
        } else if c == '>' {
            append_str(&mut out, "&gt;");
        } else {
            push_char(&mut out, c);
        }
        proof {
            let t = s@.subrange(0, i + 1);
            assert(t.drop_last() == s@.subrange(0, i as int));
            assert(t.last() == c);
        }
        i = i + 1;
    }
    proof {
        assert(s@.subrange(0, cs.len() as int) == s@);
    }
    out
}

/// Escapes `s` for use inside a double-quoted JavaScript string.
pub fn escape_js_string(s: &str) -> (r: String)
    ensures
        r@ == js_escaped(s@),
{
    let cs = str_to_chars(s);
    let mut out = String::new();
    let mut i: usize = 0;
    while i < cs.len()
        invariant
            cs@ == s@,
            i <= cs.len(),
            out@ == js_escaped(s@.subrange(0, i as int)),
        decreases cs.len() - i,
    {
        let c = cs[i];
        if c == '\\' {
            append_str(&mut out, "\\\\");
        } else if c == '"' {
            append_str(&mut out, "\\\"");
        } else if c == '\n' {
            append_str(&mut out, "\\n");
        } else if c == '\r' {
            append_str(&mut out, "\\r");
        } else {
            push_char(&mut out, c);
        }
        proof {
            let t = s@.subrange(0, i + 1);
            assert(t.drop_last() == s@.subrange(0, i as int));
            assert(t.last() == c);
        }
        i = i + 1;
    }
    proof {
        assert(s@.subrange(0, cs.len() as int) == s@);
    }
    out
}

} // verus!
