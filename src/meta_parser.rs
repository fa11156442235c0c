use vstd::prelude::*;
use crate::error::ParseError;
use crate::geom_grammar::{at, ident_end};
use crate::json_value::{is_canonical_text, json_result, json_value_spec, JsonValue, JsonValueParser};
use crate::text::{lemma_skip_ws_bounds, 
    chars_of, copy_range, is_ident, is_ident_char, is_ident_continue_char, is_ident_start,
    is_ident_start_char, is_whitespace, skip_ws, string_from_chars, string_from_range, trim_chars,
    trim_spec,
};

verus! {

/// A parsed `#...` statement.
#[derive(Debug, Clone, PartialEq)]
pub enum MetadataStatement {
    /// Metadata for the current region: `#key=<json>`
    Current {
        /// The metadata key
        key: String,
        /// The value
        value: JsonValue,
    },
    /// Metadata for a named target: `#<target>:key=<json>`
    Targeted {
        /// The target: a region name, a wildcard pattern, or `$global`
        target: String,
        /// The metadata key
        key: String,
        /// The value
        value: JsonValue,
    },
}

/// A metadata statement as plain values: key and value text, and the target.
pub enum MetaView {
    Current(Seq<char>, Seq<char>),
    Targeted(Seq<char>, Seq<char>, Seq<char>),
}

pub open spec fn meta_view(m: MetadataStatement) -> MetaView {
    match m {
        MetadataStatement::Current { key, value } => MetaView::Current(key@, value@),
        MetadataStatement::Targeted { target, key, value } => MetaView::Targeted(target@, key@, value@),
    }
}

/// Index of the first `:` or `=` at or after `p`, or the length.
pub open spec fn find_colon_or_eq(s: Seq<char>, p: int) -> int
    decreases s.len() - p,
{
    if p < 0 || p >= s.len() {
        s.len() as int
    } else if s[p] == ':' || s[p] == '=' {
        p
    } else {
        find_colon_or_eq(s, p + 1)
    }
}

/// The optional target at `p`: the trimmed text before a `:` that comes
/// before any `=`; `None` for an empty target.
pub open spec fn target_spec(s: Seq<char>, p: int) -> Option<Option<Seq<char>>> {
    let e = find_colon_or_eq(s, p);
    if e < s.len() && s[e] == ':' {
        let t = trim_spec(s.subrange(p, e));
        if t.len() == 0 {
            None
        } else {
            Some(Some(t))
        }
    } else {
        Some(None)
    }
}

/// A metadata key at `p`: an identifier.
pub open spec fn key_spec(s: Seq<char>, p: int) -> Option<(Seq<char>, int)> {
    if 0 <= p < s.len() && is_ident_start(s[p]) {
        let e = ident_end(s, p + 1);
        Some((s.subrange(p, e), e))
    } else {
        None
    }
}

/// `key = value` from `p` on.
pub open spec fn assignment_spec(s: Seq<char>, p: int) -> Option<(Seq<char>, Seq<char>)> {
    match key_spec(s, p) {
        None => None,
        Some((k, q)) => {
            let q1 = skip_ws(s, q);
            if !at(s, q1, '=') {
                None
            } else {
                let q2 = skip_ws(s, q1 + 1);
                match json_value_spec(s.subrange(q2, s.len() as int), 0) {
                    None => None,
                    Some(v) => Some((k, v)),
                }
            }
        },
    }
}

/// A whole metadata statement starting at `p`: `#target:key=value` or
/// `#key=value`. Nothing after the value is examined.
pub open spec fn meta_spec(s: Seq<char>, p: int) -> Option<MetaView> {
    let p0 = skip_ws(s, p);
    if !at(s, p0, '#') {
        None
    } else {
        match target_spec(s, p0 + 1) {
            None => None,
            Some(Some(t)) => match assignment_spec(s, skip_ws(s, find_colon_or_eq(s, p0 + 1) + 1)) {
                None => None,
                Some((k, v)) => Some(MetaView::Targeted(t, k, v)),
            },
            Some(None) => match assignment_spec(s, p0 + 1) {
                None => None,
                Some((k, v)) => Some(MetaView::Current(k, v)),
            },
        }
    }
}

pub proof fn lemma_find_colon_or_eq(s: Seq<char>, p: int)
    requires
        0 <= p <= s.len(),
    ensures
        p <= find_colon_or_eq(s, p) <= s.len(),
        find_colon_or_eq(s, p) < s.len() ==> (s[find_colon_or_eq(s, p)] == ':' || s[find_colon_or_eq(s, p)] == '='),
    decreases s.len() - p,
{
    if p < s.len() && !(s[p] == ':' || s[p] == '=') {
        lemma_find_colon_or_eq(s, p + 1);
    }
}

/// A statement the parser may produce: the key is an identifier, a target is
/// non-empty and trimmed, and the value is canonical JSON text.
pub open spec fn meta_statement_ok(s: MetadataStatement) -> bool {
    match s {
        MetadataStatement::Current { key, value } => is_ident(key@) && is_canonical_text(value@),
        MetadataStatement::Targeted { target, key, value } => {
            &&& target@.len() > 0
            &&& trim_spec(target@) == target@
            &&& is_ident(key@)
            &&& is_canonical_text(value@)
        },
    }
}

/// Parser for metadata statements.
pub struct MetadataParser {
    chars: Vec<char>,
    position: usize,
}

impl MetadataParser {
    pub closed spec fn text(&self) -> Seq<char> {
        self.chars@
    }

    pub closed spec fn wf(&self) -> bool {
        self.position <= self.chars@.len()
    }

    /// The current position, in characters.
    pub closed spec fn pos(&self) -> int {
        self.position as int
    }

    closed spec fn advanced(&self, other: &Self) -> bool {
        self.chars@ == other.chars@ && self.wf() && other.position <= self.position
    }

    pub fn new(input: &str) -> (r: Self)
        ensures
            r.text() == input@,
            r.pos() == 0,
            r.wf(),
    {
        MetadataParser { chars: chars_of(input), position: 0 }
    }

    /// Parse a metadata statement. A `:` before the first `=` makes it targeted.
    pub fn parse(&mut self) -> (r: Result<MetadataStatement, ParseError>)
        requires
            old(self).wf(),
        ensures
            r matches Err(e) ==> crate::error::is_syntax_error(e),
            final(self).text() == old(self).text(),
            final(self).wf(),
            r matches Ok(s) ==> meta_statement_ok(s),
            r is Ok <==> meta_spec(old(self).text(), old(self).pos()) is Some,
            r matches Ok(s) ==> meta_spec(old(self).text(), old(self).pos()) == Some(meta_view(s)),
    {
        let ghost s = self.chars@;
        proof {
            let p0 = skip_ws(s, self.position as int);
            lemma_skip_ws_bounds(s, self.position as int);
            if p0 + 1 <= s.len() {
                lemma_find_colon_or_eq(s, p0 + 1);
            }
        }
        self.skip_whitespace();
        if !self.consume_char('#') {
            return Err(self.expected_here("'#'"));
        }
        let target = self.parse_optional_target()?;
        match target {
            Some(target) => {
                self.skip_whitespace();
                if !self.consume_char(':') {
                    return Err(self.expected_here("':'"));
                }
                self.skip_whitespace();
                let key = self.parse_key()?;
                self.skip_whitespace();
                if !self.consume_char('=') {
                    return Err(self.expected_here("'='"));
                }
                self.skip_whitespace();
                let value = self.parse_value()?;
                Ok(MetadataStatement::Targeted { target, key, value })
            },
            None => {
                let key = self.parse_key()?;
                self.skip_whitespace();
                if !self.consume_char('=') {
                    return Err(self.expected_here("'='"));
                }
                self.skip_whitespace();
                let value = self.parse_value()?;
                Ok(MetadataStatement::Current { key, value })
            },
        }
    }

    /// Parse the JSON value that makes up the rest of the statement.
    fn parse_value(&mut self) -> (r: Result<JsonValue, ParseError>)
        requires
            old(self).wf(),
        ensures
            r matches Err(e) ==> crate::error::is_syntax_error(e),
            final(self).advanced(old(self)),
            r matches Ok(v) ==> is_canonical_text(v@),
            json_result(r, json_value_spec(old(self).chars@.subrange(old(self).position as int, old(self).chars@.len() as int), 0)),
    {
        let n = self.chars.len();
        let rest = string_from_range(self.chars.as_slice(), self.position, n);
        let mut json_parser = JsonValueParser::new(rest.as_str());
        json_parser.parse()
    }

    /// An `Expected` error naming the current character (`'\0'` at the end).
    fn expected_here(&self, expected: &'static str) -> (r: ParseError)
        requires
            self.wf(),
        ensures
            r is Expected,
    {
        let found = match self.current_char() {
            Some(c) => string_from_chars(&[c]),
            None => string_from_chars(&['\0']),
        };
        ParseError::Expected { expected, found, position: self.position }
    }

    /// Parse an optional target: everything up to a `:` that comes before any
    /// `=`, trimmed.
    fn parse_optional_target(&mut self) -> (r: Result<Option<String>, ParseError>)
        requires
            old(self).wf(),
        ensures
            r matches Err(e) ==> crate::error::is_syntax_error(e),
            final(self).advanced(old(self)),
            r matches Ok(Some(t)) ==> t@.len() > 0 && trim_spec(t@) == t@,
            match target_spec(old(self).chars@, old(self).position as int) {
                None => r is Err,
                Some(None) => r matches Ok(None) && final(self).position == old(self).position,
                Some(Some(t)) => r matches Ok(Some(x)) && x@ == t && final(self).position == find_colon_or_eq(
                    old(self).chars@,
                    old(self).position as int,
                ),
            },
    {
        let start_pos = self.position;
        let n = self.chars.len();
        while self.position < n
            invariant
                self.advanced(old(self)),
                n == self.chars@.len(),
                start_pos == old(self).position,
                find_colon_or_eq(self.chars@, start_pos as int) == find_colon_or_eq(self.chars@, self.position as int),
            decreases n - self.position,
        {
            let ch = self.chars[self.position];
            if ch == ':' {
                let raw = copy_range(self.chars.as_slice(), start_pos, self.position);
                let target = trim_chars(raw.as_slice());
                if target.len() == 0 {
                    return Err(ParseError::Expected {
                        expected: "target name",
                        found: "empty string".to_owned(),
                        position: start_pos,
                    });
                }
                proof {
                    crate::text::lemma_trim_idempotent(raw@);
                }
                return Ok(Some(string_from_chars(target.as_slice())));
            } else if ch == '=' {
                self.position = start_pos;
                return Ok(None);
            }
            self.position = self.position + 1;
        }
        self.position = start_pos;
        Ok(None)
    }

    /// Parse a metadata key: an identifier.
    fn parse_key(&mut self) -> (r: Result<String, ParseError>)
        requires
            old(self).wf(),
        ensures
            r matches Err(e) ==> crate::error::is_syntax_error(e),
            final(self).advanced(old(self)),
            r matches Ok(k) ==> is_ident(k@),
            match key_spec(old(self).chars@, old(self).position as int) {
                Some((k, q)) => r matches Ok(x) && x@ == k && final(self).position == q,
                None => r is Err,
            },
    {
        let start_pos = self.position;
        let n = self.chars.len();
        if !(start_pos < n && is_ident_start_char(self.chars[start_pos])) {
            return Err(self.expected_here("metadata key"));
        }
        while self.position < n && is_ident_continue_char(self.chars[self.position])
            invariant
                self.advanced(old(self)),
                n == self.chars@.len(),
                start_pos == old(self).position,
                start_pos < n,
                is_ident_start(self.chars@[start_pos as int]),
                forall|k: int| start_pos <= k < self.position ==> is_ident_char(#[trigger] self.chars@[k]),
                self.position == start_pos || ident_end(self.chars@, start_pos + 1) == ident_end(self.chars@, self.position as int),
            decreases n - self.position,
        {
            self.position = self.position + 1;
        }
        if self.position == start_pos {
            return Err(ParseError::Expected {
                expected: "metadata key",
                found: "empty string".to_owned(),
                position: start_pos,
            });
        }
        let key = string_from_range(self.chars.as_slice(), start_pos, self.position);
        proof {
            assert forall|i: int| 0 <= i < key@.len() implies is_ident_char(#[trigger] key@[i]) by {
                assert(key@[i] == self.chars@[start_pos + i]);
            }
        }
        Ok(key)
    }

    /// Skip whitespace characters.
    fn skip_whitespace(&mut self)
        requires
            old(self).wf(),
        ensures
            final(self).advanced(old(self)),
            final(self).position == skip_ws(old(self).chars@, old(self).position as int),
    {
        while self.position < self.chars.len() && is_whitespace(self.chars[self.position])
            invariant
                self.advanced(old(self)),
                skip_ws(self.chars@, self.position as int) == skip_ws(
                    old(self).chars@,
                    old(self).position as int,
                ),
            decreases self.chars@.len() - self.position,
        {
            self.position = self.position + 1;
        }
    }

    /// The current character, if any.
    fn current_char(&self) -> (r: Option<char>)
        requires
            self.wf(),
        ensures
            r == (if self.position < self.chars@.len() {
                Some(self.chars@[self.position as int])
            } else {
                None::<char>
            }),
    {
        if self.position < self.chars.len() {
            Some(self.chars[self.position])
        } else {
            None
        }
    }

    /// Advance the position by one character, staying within the input.
    fn advance(&mut self)
        requires
            old(self).wf(),
        ensures
            final(self).advanced(old(self)),
            final(self).position == if old(self).position < old(self).chars@.len() {
                old(self).position + 1
            } else {
                old(self).position as int
            },
    {
        if self.position < self.chars.len() {
            self.position = self.position + 1;
        }
    }

    /// Consume `expected` if it is the current character.
    fn consume_char(&mut self, expected: char) -> (r: bool)
        requires
            old(self).wf(),
        ensures
            final(self).advanced(old(self)),
            r == at(old(self).chars@, old(self).position as int, expected),
            r ==> final(self).position == old(self).position + 1,
            !r ==> final(self).position == old(self).position,
    {
        if self.current_char() == Some(expected) {
            self.advance();
            true
        } else {
            false
        }
    }
}

} // verus!
