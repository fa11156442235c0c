use vstd::prelude::*;
use crate::error::ParseError;
use crate::text::{chars_of, is_whitespace, is_ws, lemma_skip_ws_bounds, skip_ws, string_from_range};

verus! {

/// The compact text that serde_json writes for the single JSON value held in
/// `text` (surrounding whitespace allowed), or `None` when `text` is not one
/// JSON value.
pub uninterp spec fn json_canonical(text: Seq<char>) -> Option<Seq<char>>;

/// Relies on `serde_json::from_str::<serde_json::Value>`, which accepts exactly
/// one JSON value with optional surrounding whitespace, and on
/// `serde_json::to_string` for the compact text of the parsed value. The result
/// depends on `text` alone.
#[verifier::external_body]
fn canonical_json(text: &str) -> (r: Option<String>)
    ensures
        match r {
            Some(t) => json_canonical(text@) == Some(t@),
            None => json_canonical(text@) is None,
        },
{
    match serde_json::from_str::<serde_json::Value>(text) {
        Ok(v) => serde_json::to_string(&v).ok(),
        Err(_) => None,
    }
}

proof fn lemma_skip_ws_fixed(s: Seq<char>, p: int)
    requires
        0 <= p <= s.len(),
        p < s.len() ==> !is_ws(s[p]),
    ensures
        skip_ws(s, p) == p,
{
}

/// Whether the JSON values held in two texts are equal, as serde_json's
/// `Value` equality decides (numbers by value, objects by key and value).
pub uninterp spec fn json_eq(a: Seq<char>, b: Seq<char>) -> bool;

/// Relies on `serde_json::from_str::<serde_json::Value>` for both texts and on
/// `Value`'s `==`; the result depends on the two texts alone.
#[verifier::external_body]
fn json_values_equal(a: &str, b: &str) -> (r: bool)
    ensures
        r == json_eq(a@, b@),
{
    match (serde_json::from_str::<serde_json::Value>(a), serde_json::from_str::<serde_json::Value>(b)) {
        (Ok(x), Ok(y)) => x == y,
        _ => false,
    }
}

/// Deep equality of two JSON texts: the same text, or values that serde_json
/// finds equal (so `0.0` and `-0.0` are the same value).
pub open spec fn same_json(a: Seq<char>, b: Seq<char>) -> bool {
    a == b || json_eq(a, b)
}

/// A JSON value, held as the compact canonical text of the value.
#[derive(Debug, PartialEq)]
pub struct JsonValue {
    pub text: String,
}

impl Clone for JsonValue {
    fn clone(&self) -> (r: Self)
        ensures
            r == *self,
    {
        JsonValue { text: self.text.clone() }
    }
}

impl View for JsonValue {
    type V = Seq<char>;

    open spec fn view(&self) -> Seq<char> {
        self.text@
    }
}

/// The canonical texts of the JSON literals.
pub open spec fn is_literal_text(t: Seq<char>) -> bool {
    t == "true"@ || t == "false"@ || t == "null"@
}

/// A canonical JSON text: one that serde_json writes for some input, or a literal.
pub open spec fn is_canonical_text(t: Seq<char>) -> bool {
    is_literal_text(t) || exists|x: Seq<char>| json_canonical(x) == Some(t)
}

impl JsonValue {
    /// Parses one JSON value (surrounding whitespace allowed).
    pub fn from_json(text: &str) -> (r: Option<JsonValue>)
        ensures
            match r {
                Some(v) => json_canonical(text@) == Some(v@),
                None => json_canonical(text@) is None,
            },
    {
        match canonical_json(text) {
            Some(t) => Some(JsonValue { text: t }),
            None => None,
        }
    }

    /// Deep equality of JSON values.
    pub fn same_value(&self, other: &JsonValue) -> (r: bool)
        ensures
            r == same_json(self@, other@),
    {
        self.text == other.text || json_values_equal(self.text.as_str(), other.text.as_str())
    }

    /// The canonical text of the value.
    pub fn as_text(&self) -> (r: &str)
        ensures
            r@ == self@,
    {
        self.text.as_str()
    }
}

/// A character that may occur in a JSON number.
pub open spec fn number_char(c: char) -> bool {
    ('0' <= c && c <= '9') || c == '.' || c == 'e' || c == 'E' || c == '+' || c == '-'
}

fn is_number_char(ch: char) -> (r: bool)
    ensures
        r == number_char(ch),
{
    ('0' <= ch && ch <= '9') || ch == '.' || ch == 'e' || ch == 'E' || ch == '+' || ch == '-'
}

/// The value read from `s[a..b]` alone.
pub open spec fn extent_value(s: Seq<char>, a: int, b: int) -> Option<Seq<char>> {
    json_canonical(s.subrange(a, b))
}

/// Position just past the quote closing a string whose contents start at
/// `p`; `esc` when the previous character was an unconsumed backslash.
pub open spec fn str_close(s: Seq<char>, p: int, esc: bool) -> Option<int>
    decreases s.len() - p,
{
    if p < 0 || p >= s.len() {
        None
    } else if esc {
        str_close(s, p + 1, false)
    } else if s[p] == '\\' {
        str_close(s, p + 1, true)
    } else if s[p] == '"' {
        Some(p + 1)
    } else {
        str_close(s, p + 1, false)
    }
}

/// Like `str_close`, but the end of the text when the string is not closed.
pub open spec fn skip_str(s: Seq<char>, p: int, esc: bool) -> int
    decreases s.len() - p,
{
    if p < 0 || p >= s.len() {
        p
    } else if esc {
        skip_str(s, p + 1, false)
    } else if s[p] == '\\' {
        skip_str(s, p + 1, true)
    } else if s[p] == '"' {
        p + 1
    } else {
        skip_str(s, p + 1, false)
    }
}

/// End of the run of number characters starting at `p`.
pub open spec fn number_end(s: Seq<char>, p: int) -> int
    decreases s.len() - p,
{
    if 0 <= p < s.len() && number_char(s[p]) {
        number_end(s, p + 1)
    } else {
        p
    }
}

/// Position just past the bracket that closes the array or object scanned
/// from `p` with `depth` brackets open; string contents are skipped.
pub open spec fn bracket_close(s: Seq<char>, p: int, depth: nat, open: char, close: char) -> Option<int>
    decreases s.len() - p,
{
    if p < 0 || p >= s.len() {
        None
    } else if s[p] == open {
        bracket_close(s, p + 1, depth + 1, open, close)
    } else if s[p] == close {
        let d: nat = if depth > 0 { (depth - 1) as nat } else { 0 };
        if d == 0 {
            Some(p + 1)
        } else {
            bracket_close(s, p + 1, d, open, close)
        }
    } else if s[p] == '"' {
        let q = skip_str(s, p + 1, false);
        if q <= p || q > s.len() {
            None
        } else {
            bracket_close(s, q, depth, open, close)
        }
    } else {
        bracket_close(s, p + 1, depth, open, close)
    }
}

/// The value found by scanning for its extent from `p`.
pub open spec fn boundary_spec(s: Seq<char>, p: int) -> Option<Seq<char>> {
    let p1 = skip_ws(s, p);
    if p1 < 0 || p1 >= s.len() {
        None
    } else {
        let c = s[p1];
        if c == '"' {
            match str_close(s, p1 + 1, false) {
                None => None,
                Some(e) => extent_value(s, p1, e),
            }
        } else if ('0' <= c && c <= '9') || c == '-' {
            extent_value(s, p1, number_end(s, p1))
        } else if c == 't' || c == 'f' {
            if crate::geom_grammar::starts_at(s, p1, "true"@) {
                Some("true"@)
            } else if crate::geom_grammar::starts_at(s, p1, "false"@) {
                Some("false"@)
            } else {
                None
            }
        } else if c == 'n' {
            if crate::geom_grammar::starts_at(s, p1, "null"@) {
                Some("null"@)
            } else {
                None
            }
        } else if c == '[' {
            match bracket_close(s, p1, 0, '[', ']') {
                None => None,
                Some(e) => extent_value(s, p1, e),
            }
        } else if c == '{' {
            match bracket_close(s, p1, 0, '{', '}') {
                None => None,
                Some(e) => extent_value(s, p1, e),
            }
        } else {
            None
        }
    }
}

/// The JSON value at `p`: everything after the leading whitespace when that is
/// one JSON value, otherwise the value found by scanning for its extent.
pub open spec fn json_value_spec(s: Seq<char>, p: int) -> Option<Seq<char>> {
    let p1 = skip_ws(s, p);
    match json_canonical(s.subrange(p1, s.len() as int)) {
        Some(t) => Some(t),
        None => boundary_spec(s, p1),
    }
}

/// An executable JSON result agrees with the specified one.
pub open spec fn json_result(r: Result<JsonValue, ParseError>, sp: Option<Seq<char>>) -> bool {
    match sp {
        Some(t) => r matches Ok(v) && v@ == t,
        None => r is Err,
    }
}

/// Parser for the JSON value that ends a metadata statement.
pub struct JsonValueParser {
    chars: Vec<char>,
    position: usize,
}

impl JsonValueParser {
    /// The text being parsed.
    pub closed spec fn text(&self) -> Seq<char> {
        self.chars@
    }

    /// The current position, in characters.
    pub closed spec fn pos(&self) -> int {
        self.position as int
    }

    pub closed spec fn wf(&self) -> bool {
        self.position <= self.chars@.len()
    }

    pub fn new(input: &str) -> (r: Self)
        ensures
            r.text() == input@,
            r.pos() == 0,
            r.wf(),
    {
        JsonValueParser { chars: chars_of(input), position: 0 }
    }

    /// Parse one JSON value. When everything after the leading whitespace is a
    /// single JSON value, that value is returned and the whole input consumed;
    /// otherwise the value's extent is found by scanning and the value read
    /// from that extent alone.
    pub fn parse(&mut self) -> (r: Result<JsonValue, ParseError>)
        requires
            old(self).wf(),
        ensures
            r matches Err(e) ==> crate::error::is_syntax_error(e),
            final(self).wf(),
            final(self).text() == old(self).text(),
            json_canonical(
                old(self).text().subrange(skip_ws(old(self).text(), old(self).pos()), old(self).text().len() as int),
            ) matches Some(t) ==> r matches Ok(v) && v@ == t && final(self).pos() == old(self).text().len(),
            r matches Ok(v) ==> is_canonical_text(v@),
            json_result(r, json_value_spec(old(self).text(), old(self).pos())),
    {
        proof {
            lemma_skip_ws_bounds(self.chars@, self.position as int);
            lemma_skip_ws_fixed(self.chars@, skip_ws(self.chars@, self.position as int));
        }
        self.skip_whitespace();
        let n = self.chars.len();
        let rest = string_from_range(self.chars.as_slice(), self.position, n);
        let whole = canonical_json(rest.as_str());
        self.parse_given(whole)
    }

    /// Finish parsing at the current position, given what serde_json made of
    /// everything from here on: that value when there is one, otherwise the
    /// value found by scanning for its extent.
    pub fn parse_given(&mut self, whole: Option<String>) -> (r: Result<JsonValue, ParseError>)
        requires
            old(self).wf(),
        ensures
            r matches Err(e) ==> crate::error::is_syntax_error(e),
            final(self).wf(),
            final(self).text() == old(self).text(),
            match whole {
                Some(t) => r matches Ok(v) && v@ == t@ && final(self).pos() == old(self).text().len(),
                None => json_result(r, boundary_spec(old(self).text(), old(self).pos())) && (r matches Ok(
                    v,
                ) ==> is_canonical_text(v@)),
            },
    {
        match whole {
            Some(t) => {
                self.position = self.chars.len();
                Ok(JsonValue { text: t })
            },
            None => self.parse_json_value_boundary(),
        }
    }

    /// Parse a JSON value by finding where it ends.
    fn parse_json_value_boundary(&mut self) -> (r: Result<JsonValue, ParseError>)
        requires
            old(self).wf(),
        ensures
            r matches Err(e) ==> crate::error::is_syntax_error(e),
            final(self).wf(),
            final(self).text() == old(self).text(),
            r matches Ok(v) ==> is_canonical_text(v@),
            json_result(r, boundary_spec(old(self).text(), old(self).pos())),
    {
        proof {
            reveal_strlit("true");
            reveal_strlit("false");
            reveal_strlit("null");
        }
        self.skip_whitespace();
        match self.current_char() {
            Some(ch) => {
                if ch == '"' {
                    self.parse_string_value()
                } else if ('0' <= ch && ch <= '9') || ch == '-' {
                    self.parse_number_value()
                } else if ch == 't' || ch == 'f' {
                    self.parse_boolean_value()
                } else if ch == 'n' {
                    self.parse_null_value()
                } else if ch == '[' {
                    self.parse_bracketed_value('[', ']', "valid JSON array", "closing ']' for JSON array")
                } else if ch == '{' {
                    self.parse_bracketed_value('{', '}', "valid JSON object", "closing '}' for JSON object")
                } else {
                    Err(ParseError::Expected {
                        expected: "JSON value",
                        found: self.peek_str(1),
                        position: self.position,
                    })
                }
            },
            None => Err(ParseError::UnexpectedEnd { expected: "JSON value", position: self.position }),
        }
    }

    /// Reads the value held in `chars[start..position]`.
    fn read_extent(&self, start: usize, expected: &'static str) -> (r: Result<JsonValue, ParseError>)
        requires
            self.wf(),
            start <= self.position,
        ensures
            r matches Err(e) ==> crate::error::is_syntax_error(e),
            r matches Ok(v) ==> is_canonical_text(v@),
            json_result(r, extent_value(self.text(), start as int, self.pos())),
    {
        let slice = string_from_range(self.chars.as_slice(), start, self.position);
        match canonical_json(slice.as_str()) {
            Some(t) => Ok(JsonValue { text: t }),
            None => Err(ParseError::Expected { expected, found: slice, position: start }),
        }
    }

    /// Parse a JSON string value.
    fn parse_string_value(&mut self) -> (r: Result<JsonValue, ParseError>)
        requires
            old(self).wf(),
            old(self).pos() < old(self).text().len(),
        ensures
            r matches Err(e) ==> crate::error::is_syntax_error(e),
            final(self).wf(),
            final(self).text() == old(self).text(),
            r matches Ok(v) ==> is_canonical_text(v@),
            json_result(
                r,
                match str_close(old(self).text(), old(self).pos() + 1, false) {
                    None => None,
                    Some(e) => extent_value(old(self).text(), old(self).pos(), e),
                },
            ),
    {
        let ghost s = self.chars@;
        let start_pos = self.position;
        self.advance();
        let mut escaped = false;
        while self.position < self.chars.len()
            invariant
                self.wf(),
                self.text() == old(self).text(),
                s == self.chars@,
                start_pos == old(self).position,
                start_pos < self.position,
                str_close(s, start_pos + 1, false) == str_close(s, self.position as int, escaped),
            decreases self.chars@.len() - self.position,
        {
            let ch = self.chars[self.position];
            if escaped {
                escaped = false;
            } else if ch == '\\' {
                escaped = true;
            } else if ch == '"' {
                self.advance();
                return self.read_extent(start_pos, "valid JSON string");
            }
            self.advance();
        }
        Err(ParseError::UnexpectedEnd {
            expected: "closing quote for JSON string",
            position: self.position,
        })
    }

    /// Parse a JSON number value.
    fn parse_number_value(&mut self) -> (r: Result<JsonValue, ParseError>)
        requires
            old(self).wf(),
        ensures
            r matches Err(e) ==> crate::error::is_syntax_error(e),
            final(self).wf(),
            final(self).text() == old(self).text(),
            r matches Ok(v) ==> is_canonical_text(v@),
            json_result(r, extent_value(old(self).text(), old(self).pos(), number_end(old(self).text(), old(self).pos()))),
    {
        let ghost s = self.chars@;
        let start_pos = self.position;
        if self.position < self.chars.len() && self.chars[self.position] == '-' {
            self.advance();
        }
        while self.position < self.chars.len() && is_number_char(self.chars[self.position])
            invariant
                self.wf(),
                self.text() == old(self).text(),
                s == self.chars@,
                start_pos == old(self).position,
                start_pos <= self.position,
                number_end(s, start_pos as int) == number_end(s, self.position as int),
            decreases self.chars@.len() - self.position,
        {
            self.advance();
        }
        self.read_extent(start_pos, "valid JSON number")
    }

    /// Parse `true` or `false`.
    fn parse_boolean_value(&mut self) -> (r: Result<JsonValue, ParseError>)
        requires
            old(self).wf(),
        ensures
            r matches Err(e) ==> crate::error::is_syntax_error(e),
            final(self).wf(),
            final(self).text() == old(self).text(),
            r matches Ok(v) ==> is_canonical_text(v@),
            json_result(
                r,
                if crate::geom_grammar::starts_at(old(self).text(), old(self).pos(), "true"@) {
                    Some("true"@)
                } else if crate::geom_grammar::starts_at(old(self).text(), old(self).pos(), "false"@) {
                    Some("false"@)
                } else {
                    None
                },
            ),
    {
        let start_pos = self.position;
        if self.consume_str("true") {
            Ok(JsonValue { text: "true".to_owned() })
        } else if self.consume_str("false") {
            Ok(JsonValue { text: "false".to_owned() })
        } else {
            Err(ParseError::Expected {
                expected: "'true' or 'false'",
                found: self.peek_str(5),
                position: start_pos,
            })
        }
    }

    /// Parse `null`.
    fn parse_null_value(&mut self) -> (r: Result<JsonValue, ParseError>)
        requires
            old(self).wf(),
        ensures
            r matches Err(e) ==> crate::error::is_syntax_error(e),
            final(self).wf(),
            final(self).text() == old(self).text(),
            r matches Ok(v) ==> is_canonical_text(v@),
            json_result(
                r,
                if crate::geom_grammar::starts_at(old(self).text(), old(self).pos(), "null"@) {
                    Some("null"@)
                } else {
                    None
                },
            ),
    {
        let start_pos = self.position;
        if self.consume_str("null") {
            Ok(JsonValue { text: "null".to_owned() })
        } else {
            Err(ParseError::Expected {
                expected: "'null'",
                found: self.peek_str(4),
                position: start_pos,
            })
        }
    }

    /// Parse a JSON array or object: scan to the matching close bracket,
    /// skipping string contents, then read the enclosed extent.
    fn parse_bracketed_value(
        &mut self,
        open: char,
        close: char,
        expected: &'static str,
        unclosed: &'static str,
    ) -> (r: Result<JsonValue, ParseError>)
        requires
            old(self).wf(),
        ensures
            r matches Err(e) ==> crate::error::is_syntax_error(e),
            final(self).wf(),
            final(self).text() == old(self).text(),
            r matches Ok(v) ==> is_canonical_text(v@),
            json_result(
                r,
                match bracket_close(old(self).text(), old(self).pos(), 0, open, close) {
                    None => None,
                    Some(e) => extent_value(old(self).text(), old(self).pos(), e),
                },
            ),
    {
        let ghost s = self.chars@;
        let start_pos = self.position;
        let mut depth: usize = 0;
        while self.position < self.chars.len()
            invariant
                self.wf(),
                self.text() == old(self).text(),
                s == self.chars@,
                start_pos == old(self).position,
                start_pos <= self.position,
                depth <= self.position,
                bracket_close(s, start_pos as int, 0, open, close) == bracket_close(s, self.position as int, depth as nat, open, close),
            decreases self.chars@.len() - self.position,
        {
            let ch = self.chars[self.position];
            if ch == open {
                depth = depth + 1;
                self.advance();
            } else if ch == close {
                if depth > 0 {
                    depth = depth - 1;
                }
                self.advance();
                if depth == 0 {
                    return self.read_extent(start_pos, expected);
                }
            } else if ch == '"' {
                self.advance();
                self.skip_string_content();
            } else {
                self.advance();
            }
        }
        Err(ParseError::UnexpectedEnd { expected: unclosed, position: self.position })
    }

    /// Skip over string content up to and including the closing quote.
    fn skip_string_content(&mut self)
        requires
            old(self).wf(),
        ensures
            final(self).wf(),
            final(self).text() == old(self).text(),
            old(self).pos() <= final(self).pos(),
            final(self).pos() == skip_str(old(self).text(), old(self).pos(), false),
    {
        let ghost s = self.chars@;
        let mut escaped = false;
        while self.position < self.chars.len()
            invariant
                self.wf(),
                self.text() == old(self).text(),
                s == self.chars@,
                old(self).pos() <= self.position,
                skip_str(s, old(self).pos(), false) == skip_str(s, self.position as int, escaped),
            decreases self.chars@.len() - self.position,
        {
            let ch = self.chars[self.position];
            if escaped {
                escaped = false;
            } else if ch == '\\' {
                escaped = true;
            } else if ch == '"' {
                self.advance();
                return;
            }
            self.advance();
        }
    }

    /// Skip whitespace characters.
    fn skip_whitespace(&mut self)
        requires
            old(self).wf(),
        ensures
            final(self).wf(),
            final(self).text() == old(self).text(),
            final(self).pos() == skip_ws(old(self).text(), old(self).pos()),
    {
        while self.position < self.chars.len() && is_whitespace(self.chars[self.position])
            invariant
                self.wf(),
                self.text() == old(self).text(),
                skip_ws(self.text(), self.pos()) == skip_ws(old(self).text(), old(self).pos()),
            decreases self.chars@.len() - self.position,
        {
            self.position = self.position + 1;
        }
    }

    /// The current character, if any.
    fn current_char(&self) -> (r: Option<char>)
        requires
            self.wf(),
        ensures
            r == (if self.pos() < self.text().len() {
                Some(self.text()[self.pos()])
            } else {
                None::<char>
            }),
    {
        if self.position < self.chars.len() {
            Some(self.chars[self.position])
        } else {
            None
        }
    }

    /// Advance the position by one character, staying within the input.
    fn advance(&mut self)
        requires
            old(self).wf(),
        ensures
            final(self).wf(),
            final(self).text() == old(self).text(),
            final(self).pos() == if old(self).pos() < old(self).text().len() {
                old(self).pos() + 1
            } else {
                old(self).pos()
            },
    {
        if self.position < self.chars.len() {
            self.position = self.position + 1;
        }
    }

    /// Consume `expected` if the input continues with it.
    fn consume_str(&mut self, expected: &str) -> (r: bool)
        requires
            old(self).wf(),
        ensures
            final(self).wf(),
            final(self).text() == old(self).text(),
            r == (old(self).pos() + expected@.len() <= old(self).text().len()
                && old(self).text().subrange(old(self).pos(), old(self).pos() + expected@.len())
                == expected@),
            r ==> final(self).pos() == old(self).pos() + expected@.len(),
            !r ==> final(self).pos() == old(self).pos(),
    {
        let e = chars_of(expected);
        let n = self.chars.len();
        if e.len() > n - self.position {
            return false;
        }
        let mut k: usize = 0;
        while k < e.len()
            invariant
                self.wf(),
                n == self.chars@.len(),
                e@ == expected@,
                self.position + e@.len() <= n,
                0 <= k <= e@.len(),
                forall|j: int| 0 <= j < k ==> self.chars@[self.position + j] == e@[j],
            decreases e@.len() - k,
        {
            if self.chars[self.position + k] != e[k] {
                assert(self.text().subrange(self.pos(), self.pos() + expected@.len())[k as int]
                    != expected@[k as int]);
                return false;
            }
            k = k + 1;
        }
        assert(self.text().subrange(self.pos(), self.pos() + expected@.len()) =~= expected@);
        self.position = self.position + e.len();
        true
    }

    /// Up to `len` characters from the current position.
    fn peek_str(&self, len: usize) -> (r: String)
        requires
            self.wf(),
    {
        let n = self.chars.len();
        let end = if len <= n - self.position { self.position + len } else { n };
        string_from_range(self.chars.as_slice(), self.position, end)
    }
}

} // verus!
