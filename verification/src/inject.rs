//! The script that puts a skin's CSS into the official UI's page.

use vstd::prelude::*;
use vstd::string::*;

verus! {

#[verifier::external_type_specification]
#[verifier::external_body]
pub struct ExJsonError(serde_json::Error);

/// The lower-case hexadecimal digit for `n` (below 16).
pub open spec fn hex_digit(n: int) -> char {
    seq!['0', '1', '2', '3', '4', '5', '6', '7', '8', '9', 'a', 'b', 'c', 'd', 'e', 'f'][n]
}

/// How one character is written inside a JSON string: `"` and `\` behind a
/// backslash; backspace, tab, line feed, form feed and carriage return as
/// `\b`, `\t`, `\n`, `\f`, `\r`; any other control character below
/// U+0020 as `\u00` and two lower-case hex digits; every other character as
/// itself.
pub open spec fn json_char_escape(c: char) -> Seq<char> {
    if c == '"' {
        seq!['\\', '"']
    } else if c == '\\' {
        seq!['\\', '\\']
    } else if c == '\u{8}' {
        seq!['\\', 'b']
    } else if c == '\t' {
        seq!['\\', 't']
    } else if c == '\n' {
        seq!['\\', 'n']
    } else if c == '\u{c}' {
        seq!['\\', 'f']
    } else if c == '\r' {
        seq!['\\', 'r']
    } else if (c as u32) < 0x20 {
        seq!['\\', 'u', '0', '0', hex_digit((c as u32 / 16) as int), hex_digit((c as u32 % 16) as int)]
    } else {
        seq![c]
    }
}

/// The characters of `s`, each written as inside a JSON string.
pub open spec fn json_escaped(s: Seq<char>) -> Seq<char>
    decreases s.len(),
{
    if s.len() == 0 {
        Seq::empty()
    } else {
        json_escaped(s.drop_last()) + json_char_escape(s.last())
    }
}

/// The JSON string literal that `serde_json::to_string` writes for a string:
/// the escaped text between double quotes.
pub open spec fn json_string_literal(s: Seq<char>) -> Seq<char> {
    seq!['"'] + json_escaped(s) + seq!['"']
}

/// Calls `serde_json::to_string` on a string: its JSON string literal, with
/// the escapes of serde_json's compact formatter (its `ESCAPE` table covers
/// only U+0000 to U+001F, `"` and `\`, so no other character changes). It
/// succeeds: serde_json documents failure only for a `Serialize` impl that
/// fails or a map with non-string keys, and a string serializes through
/// `serialize_str`, which writes into a `Vec<u8>`, whose writes do not fail.
#[verifier::external_body]
fn json_quote(s: &str) -> (r: Result<String, serde_json::Error>)
    ensures
        r is Ok,
        r matches Ok(j) ==> j@ == json_string_literal(s@),
{
    serde_json::to_string(s)
}

/// The text of the script before the CSS literal.
pub open spec fn script_head() -> Seq<char> {
    "(function() {\n  var old = document.getElementById('dsh-skin');\n  if (old) old.remove();\n  var s = document.createElement('style');\n  s.id = 'dsh-skin';\n  s.textContent = "@
}

/// The text of the script after the CSS literal.
pub open spec fn script_tail() -> Seq<char> {
    ";\n  document.head.appendChild(s);\n})();"@
}

/// The script that replaces the page's `<style id="dsh-skin">` (removing the
/// old one, if any) by one whose text is the CSS given as the JSON literal
/// `css_literal`.
pub open spec fn inject_script(css_literal: Seq<char>) -> Seq<char> {
    script_head() + css_literal + script_tail()
}

/// Builds the script that puts `css` into the page as the style element
/// `dsh-skin`, replacing the one put there before; the CSS is embedded as a
/// JSON string literal, so quotes and line breaks in it are escaped.
pub fn build_inject_js(css: &str) -> (r: String)
    ensures
        r@ == inject_script(json_string_literal(css@)),
        r@ == script_head() + json_string_literal(css@) + script_tail(),
{
    let literal = match json_quote(css) {
        Ok(j) => j,
        Err(_) => "\"\"".to_owned(),
    };
    let mut out = "(function() {\n  var old = document.getElementById('dsh-skin');\n  if (old) old.remove();\n  var s = document.createElement('style');\n  s.id = 'dsh-skin';\n  s.textContent = ".to_owned();
    out.append(literal.as_str());
    out.append(";\n  document.head.appendChild(s);\n})();");
    out
}

/// A JSON string literal is one line of printable text: it starts and ends
/// with `"`, and holds no control character (no line break) however the CSS
/// is written.
pub proof fn lemma_json_literal_is_printable(s: Seq<char>)
    ensures
        json_string_literal(s).len() >= 2,
        json_string_literal(s)[0] == '"',
        json_string_literal(s).last() == '"',
        forall|k: int|
            0 <= k < json_string_literal(s).len() ==> (#[trigger] json_string_literal(s)[k] as u32)
                >= 0x20,
{
    lemma_escaped_is_printable(s);
    let e = json_escaped(s);
    let l = json_string_literal(s);
    assert forall|k: int| 0 <= k < l.len() implies (#[trigger] l[k] as u32) >= 0x20 by {
        if 0 < k < l.len() - 1 {
            assert(l[k] == e[k - 1]);
        }
    }
}

/// No character of the escaped text is a control character.
proof fn lemma_escaped_is_printable(s: Seq<char>)
    ensures
        forall|k: int|
            0 <= k < json_escaped(s).len() ==> (#[trigger] json_escaped(s)[k] as u32) >= 0x20,
    decreases s.len(),
{
    if s.len() > 0 {
        lemma_escaped_is_printable(s.drop_last());
        let a = json_escaped(s.drop_last());
        let c = s.last();
        let b = json_char_escape(c);
        assert forall|k: int| 0 <= k < b.len() implies (#[trigger] b[k] as u32) >= 0x20 by {
            if (c as u32) < 0x20 && c != '\u{8}' && c != '\t' && c != '\n' && c != '\u{c}' && c
                != '\r' {
                let h = seq!['0', '1', '2', '3', '4', '5', '6', '7', '8', '9', 'a', 'b', 'c', 'd', 'e', 'f'];
                let v = c as u32;
                assert(0 <= v < 0x20);
                assert(0 <= v / 16 < 16 && 0 <= v % 16 < 16) by (nonlinear_arith)
                    requires
                        0 <= v < 0x20,
                ;
                assert(forall|i: int| 0 <= i < 16 ==> (#[trigger] h[i] as u32) >= 0x30);
            }
        }
        assert forall|k: int| 0 <= k < (a + b).len() implies (#[trigger] (a + b)[k] as u32) >= 0x20 by {
            if k < a.len() {
                assert((a + b)[k] == a[k]);
            } else {
                assert((a + b)[k] == b[k - a.len()]);
            }
        }
    }
}

/// Whatever the CSS (the empty CSS of a page with no active skin too), the
/// script first removes the element `dsh-skin` that an earlier script put
/// in the page, then appends a new `<style id="dsh-skin">` whose text is the
/// CSS: running it again replaces the style instead of adding one, and
/// running it with empty CSS takes the old skin's style away.
pub proof fn lemma_script_replaces_the_old_style(css: Seq<char>)
    ensures
        inject_script(json_string_literal(css)) == "(function() {\n"@
            + "  var old = document.getElementById('dsh-skin');\n  if (old) old.remove();\n"@
            + "  var s = document.createElement('style');\n  s.id = 'dsh-skin';\n  s.textContent = "@
            + json_string_literal(css) + ";\n  document.head.appendChild(s);\n})();"@,
{
    reveal_strlit("(function() {\n  var old = document.getElementById('dsh-skin');\n  if (old) old.remove();\n  var s = document.createElement('style');\n  s.id = 'dsh-skin';\n  s.textContent = ");
    reveal_strlit("(function() {\n");
    reveal_strlit("  var old = document.getElementById('dsh-skin');\n  if (old) old.remove();\n");
    reveal_strlit("  var s = document.createElement('style');\n  s.id = 'dsh-skin';\n  s.textContent = ");
    assert(script_head() =~= "(function() {\n"@
        + "  var old = document.getElementById('dsh-skin');\n  if (old) old.remove();\n"@
        + "  var s = document.createElement('style');\n  s.id = 'dsh-skin';\n  s.textContent = "@);
}

/// Escaping works character by character: the escape of a text made of two
/// parts is the escape of the first followed by the escape of the second.
pub proof fn lemma_escape_of_concatenation(a: Seq<char>, b: Seq<char>)
    ensures
        json_escaped(a + b) == json_escaped(a) + json_escaped(b),
    decreases b.len(),
{
    if b.len() == 0 {
        assert(a + b =~= a);
        assert(json_escaped(a) + json_escaped(b) =~= json_escaped(a));
    } else {
        lemma_escape_of_concatenation(a, b.drop_last());
        assert((a + b).drop_last() =~= a + b.drop_last());
        assert((a + b).last() == b.last());
        assert(json_escaped(a) + json_escaped(b.drop_last()) + json_char_escape(b.last())
            =~= json_escaped(a) + (json_escaped(b.drop_last()) + json_char_escape(b.last())));
    }
}

/// Text without quotes, backslashes or control characters (plain CSS on one
/// line) is embedded as it is, between double quotes.
pub proof fn lemma_plain_text_is_kept(s: Seq<char>)
    requires
        forall|k: int|
            0 <= k < s.len() ==> #[trigger] s[k] != '"' && s[k] != '\\' && (s[k] as u32) >= 0x20,
    ensures
        json_escaped(s) == s,
        json_string_literal(s) == seq!['"'] + s + seq!['"'],
    decreases s.len(),
{
    if s.len() > 0 {
        assert forall|k: int| 0 <= k < s.drop_last().len() implies #[trigger] s.drop_last()[k]
            != '"' && s.drop_last()[k] != '\\' && (s.drop_last()[k] as u32) >= 0x20 by {
            assert(s.drop_last()[k] == s[k]);
        }
        lemma_plain_text_is_kept(s.drop_last());
        assert(s[s.len() - 1] != '"');
        assert(s.drop_last() + seq![s.last()] =~= s);
    }
}

} // verus!
