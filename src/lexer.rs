use vstd::prelude::*;
use vstd::utf8::*;
use crate::text::{chars_of, is_whitespace, leading_ws, lemma_skip_ws_bounds, skip_ws, string_from_chars, string_from_range};

verus! {

/// A slice of the input text holding a single DSL statement.
#[derive(Debug, Clone, PartialEq)]
pub struct StatementSlice {
    /// The text of the statement
    pub text: String,
    /// Starting byte offset in the input
    pub start: usize,
    /// Ending byte offset in the input (exclusive)
    pub end: usize,
}

// ---------------------------------------------------------------------------
// Comment stripping
// ---------------------------------------------------------------------------

/// Index of the first `'\n'` at or after `i`, or the length when there is none.
pub open spec fn line_end(s: Seq<char>, i: int) -> int
    decreases s.len() - i,
{
    if i < 0 || i >= s.len() {
        s.len() as int
    } else if s[i] == '\n' {
        i
    } else {
        line_end(s, i + 1)
    }
}

/// The lines from position `i` on: the text split at every `'\n'`, each line
/// kept exactly as it stands. A text of `n` line feeds has `n + 1` lines.
pub open spec fn lines_from(s: Seq<char>, i: int) -> Seq<Seq<char>>
    decreases s.len() + 1 - i,
    via lines_from_decreases
{
    if i < 0 || i > s.len() {
        Seq::empty()
    } else {
        let e = line_end(s, i);
        if e < s.len() {
            seq![s.subrange(i, e)] + lines_from(s, e + 1)
        } else {
            seq![s.subrange(i, s.len() as int)]
        }
    }
}

/// A line whose first non-whitespace character is `;`.
pub open spec fn is_comment_line(l: Seq<char>) -> bool {
    leading_ws(l) < l.len() && l[leading_ws(l)] == ';'
}

/// A comment line becomes empty; any other line is kept.
pub open spec fn strip_line(l: Seq<char>) -> Seq<char> {
    if is_comment_line(l) {
        Seq::empty()
    } else {
        l
    }
}

/// Lines joined with `'\n'` between them.
pub open spec fn join_lines(ls: Seq<Seq<char>>) -> Seq<char>
    decreases ls.len(),
{
    if ls.len() == 0 {
        Seq::empty()
    } else if ls.len() == 1 {
        ls[0]
    } else {
        join_lines(ls.drop_last()) + seq!['\n'] + ls.last()
    }
}

/// The input with every comment line replaced by an empty line.
pub open spec fn filter_comments_spec(s: Seq<char>) -> Seq<char> {
    join_lines(lines_from(s, 0).map_values(|l: Seq<char>| strip_line(l)))
}

#[via_fn]
proof fn lines_from_decreases(s: Seq<char>, i: int) {
    if 0 <= i <= s.len() {
        lemma_line_end_bounds(s, i);
    }
}

proof fn lemma_line_end_bounds(s: Seq<char>, i: int)
    requires
        0 <= i <= s.len(),
    ensures
        i <= line_end(s, i) <= s.len(),
        line_end(s, i) < s.len() ==> s[line_end(s, i)] == '\n',
        forall|k: int| i <= k < line_end(s, i) ==> s[k] != '\n',
    decreases s.len() - i,
{
    if i < s.len() && s[i] != '\n' {
        lemma_line_end_bounds(s, i + 1);
    }
}

/// Finds where the comment marker test of one line holds.
fn line_is_comment(cs: &Vec<char>, from: usize, to: usize) -> (r: bool)
    requires
        from <= to <= cs@.len(),
    ensures
        r == is_comment_line(cs@.subrange(from as int, to as int)),
{
    let ghost l = cs@.subrange(from as int, to as int);
    let mut k: usize = from;
    while k < to && is_whitespace(cs[k])
        invariant
            from <= k <= to,
            to <= cs@.len(),
            l == cs@.subrange(from as int, to as int),
            skip_ws(l, 0) == skip_ws(l, k - from),
        decreases to - k,
    {
        k = k + 1;
    }
    proof {
        lemma_skip_ws_bounds(l, 0);
    }
    k < to && cs[k] == ';'
}

/// Filter out comment lines. A line whose first non-whitespace character is
/// `;` is replaced by an empty line; every other character, line feeds and
/// carriage returns included, is kept, so line numbers are kept.
pub fn filter_comments(input: &str) -> (r: String)
    ensures
        r@ == filter_comments_spec(input@),
{
    let cs = chars_of(input);
    let n = cs.len();
    let mut out: Vec<char> = Vec::new();
    let ghost mut done: Seq<Seq<char>> = Seq::empty();
    let mut i: usize = 0;
    loop
        invariant_except_break
            lines_from(cs@, 0) == done + lines_from(cs@, i as int),
            i > 0 <==> done.len() > 0,
        invariant
            n == cs@.len(),
            cs@ == input@,
            0 <= i <= n,
            out@ == join_lines(done.map_values(|l: Seq<char>| strip_line(l))),
        ensures
            lines_from(cs@, 0) == done,
        decreases n + 1 - i,
    {
        let mut e: usize = i;
        while e < n && cs[e] != '\n'
            invariant
                i <= e <= n,
                n == cs@.len(),
                line_end(cs@, i as int) == line_end(cs@, e as int),
            decreases n - e,
        {
            e = e + 1;
        }
        proof {
            lemma_line_end_bounds(cs@, i as int);
        }
        let ghost line = cs@.subrange(i as int, e as int);
        proof {
            if e < n {
                assert(lines_from(cs@, i as int) == seq![line] + lines_from(cs@, e + 1));
            } else {
                assert(lines_from(cs@, i as int) == seq![line]);
            }
        }
        let comment = line_is_comment(&cs, i, e);
        let ghost old_out = out@;
        if i > 0 {
            out.push('\n');
        }
        if !comment {
            let mut k: usize = i;
            while k < e
                invariant
                    i <= k <= e <= n,
                    n == cs@.len(),
                    out@ == (if i > 0 { old_out + seq!['\n'] } else { old_out }) + cs@.subrange(
                        i as int,
                        k as int,
                    ),
                decreases e - k,
            {
                out.push(cs[k]);
                assert(out@ =~= (if i > 0 { old_out + seq!['\n'] } else { old_out })
                    + cs@.subrange(i as int, k + 1));
                k = k + 1;
            }
        }
        proof {
            let f = |l: Seq<char>| strip_line(l);
            let nd = done.push(line);
            assert(nd.map_values(f).drop_last() =~= done.map_values(f));
            assert(nd.map_values(f).last() == strip_line(line));
            if i == 0 {
                assert(done.len() == 0);
                assert(nd.map_values(f) =~= seq![strip_line(line)]);
                assert(out@ =~= strip_line(line));
            } else {
                assert(out@ =~= join_lines(done.map_values(f)) + seq!['\n'] + strip_line(line));
            }
            if e < n {
                assert(done + lines_from(cs@, i as int) =~= nd + lines_from(cs@, e + 1));
            } else {
                assert(done + lines_from(cs@, i as int) =~= nd);
            }
            done = nd;
        }
        if e < n {
            i = e + 1;
        } else {
            break;
        }
    }
    string_from_chars(out.as_slice())
}

// ---------------------------------------------------------------------------
// Statement slicing
// ---------------------------------------------------------------------------

/// Scanner state before a character: (bracket depth, inside a string, escape pending).
pub open spec fn scan_step(st: (int, bool, bool), c: char) -> (int, bool, bool) {
    let (d, ins, esc) = st;
    if ins && esc {
        (d, ins, false)
    } else if ins && c == '\\' {
        (d, ins, true)
    } else if c == '"' {
        (d, !ins, false)
    } else if !ins && (c == '(' || c == '[' || c == '{') {
        (d + 1, ins, false)
    } else if !ins && (c == ')' || c == ']' || c == '}') {
        (d - 1, ins, false)
    } else {
        (d, ins, false)
    }
}

/// The scanner state after reading `s[0..i]`.
pub open spec fn scan_before(s: Seq<char>, i: int) -> (int, bool, bool)
    decreases i,
{
    if i <= 0 || i > s.len() {
        (0, false, false)
    } else {
        scan_step(scan_before(s, i - 1), s[i - 1])
    }
}

/// A new statement starts at `i`: an `@` or `#` past the first character, at
/// bracket depth zero, outside any string.
pub open spec fn is_cut(s: Seq<char>, i: int) -> bool {
    &&& 0 < i < s.len()
    &&& s[i] == '@' || s[i] == '#'
    &&& scan_before(s, i).0 == 0
    &&& !scan_before(s, i).1
}

/// Offset of the `k`-th text when the texts are laid end to end.
pub open spec fn text_start(ts: Seq<Seq<char>>, k: int) -> int
    decreases k,
{
    if k <= 0 {
        0
    } else {
        text_start(ts, k - 1) + ts[k - 1].len()
    }
}

/// The texts laid end to end.
pub open spec fn concat_texts(ts: Seq<Seq<char>>) -> Seq<char>
    decreases ts.len(),
{
    if ts.len() == 0 {
        Seq::empty()
    } else {
        concat_texts(ts.drop_last()) + ts.last()
    }
}

/// No statement starts strictly between `a` and `b`.
pub open spec fn no_cut_between(s: Seq<char>, a: int, b: int) -> bool {
    forall|j: int| a < j < b ==> !is_cut(s, j)
}

/// Each text is the non-empty piece of `s` at its offset; each but the first
/// starts a statement, and none holds a statement start inside.
pub open spec fn pieces_ok(s: Seq<char>, ts: Seq<Seq<char>>) -> bool {
    &&& forall|k: int|
        0 <= k < ts.len() ==> #[trigger] ts[k] == s.subrange(
            text_start(ts, k),
            text_start(ts, k) + ts[k].len(),
        )
    &&& forall|k: int| 0 <= k < ts.len() ==> (#[trigger] ts[k]).len() > 0
    &&& forall|k: int| 0 < k < ts.len() ==> is_cut(s, #[trigger] text_start(ts, k))
    &&& forall|k: int|
        0 <= k < ts.len() ==> no_cut_between(s, text_start(ts, k), text_start(ts, k) + (
        #[trigger] ts[k]).len())
}

/// `ts` cuts `s` into consecutive non-empty pieces that start exactly at the
/// statement starts of `s`.
pub open spec fn is_statement_split(s: Seq<char>, ts: Seq<Seq<char>>) -> bool {
    &&& text_start(ts, ts.len() as int) == s.len()
    &&& pieces_ok(s, ts)
}

/// Number of bytes in the UTF-8 encoding of a character.
pub open spec fn char_width(c: char) -> nat {
    if (c as u32) < 0x80 {
        1
    } else if (c as u32) < 0x800 {
        2
    } else if (c as u32) < 0x10000 {
        3
    } else {
        4
    }
}

/// Number of bytes in the UTF-8 encoding of a character sequence.
pub open spec fn byte_len(s: Seq<char>) -> nat
    decreases s.len(),
{
    if s.len() == 0 {
        0
    } else {
        char_width(s[0]) + byte_len(s.drop_first())
    }
}

pub open spec fn slice_texts(v: Seq<StatementSlice>) -> Seq<Seq<char>> {
    v.map_values(|x: StatementSlice| x.text@)
}

/// Each slice's byte range is that of its text within `s`.
pub open spec fn offsets_ok(s: Seq<char>, v: Seq<StatementSlice>) -> bool {
    forall|k: int|
        0 <= k < v.len() ==> {
            &&& (#[trigger] v[k]).start == byte_len(s.subrange(0, text_start(slice_texts(v), k)))
            &&& v[k].end == byte_len(
                s.subrange(0, text_start(slice_texts(v), k) + v[k].text@.len()),
            )
        }
}

proof fn lemma_byte_len_encode(s: Seq<char>)
    ensures
        byte_len(s) == encode_utf8(s).len(),
    decreases s.len(),
{
    if s.len() > 0 {
        lemma_byte_len_encode(s.drop_first());
        char_is_scalar(s[0]);
    }
}

proof fn lemma_byte_len_push(s: Seq<char>, c: char)
    ensures
        byte_len(s.push(c)) == byte_len(s) + char_width(c),
    decreases s.len(),
{
    if s.len() == 0 {
        assert(s.push(c).drop_first() =~= Seq::<char>::empty());
        assert(s.push(c)[0] == c);
        assert(byte_len(Seq::<char>::empty()) == 0);
        assert(byte_len(s) == 0);
    } else {
        assert(s.push(c).drop_first() =~= s.drop_first().push(c));
        assert(s.push(c)[0] == s[0]);
        lemma_byte_len_push(s.drop_first(), c);
    }
}

proof fn lemma_byte_len_prefix(s: Seq<char>, i: int, j: int)
    requires
        0 <= i <= j <= s.len(),
    ensures
        byte_len(s.subrange(0, i)) <= byte_len(s.subrange(0, j)),
    decreases j - i,
{
    if i < j {
        lemma_byte_len_prefix(s, i, j - 1);
        assert(s.subrange(0, j) =~= s.subrange(0, j - 1).push(s[j - 1]));
        lemma_byte_len_push(s.subrange(0, j - 1), s[j - 1]);
    }
}

proof fn lemma_text_start_prefix(ts: Seq<Seq<char>>, ots: Seq<Seq<char>>, k: int)
    requires
        ts.drop_last() == ots,
        ts.len() == ots.len() + 1,
        0 <= k <= ots.len(),
    ensures
        text_start(ts, k) == text_start(ots, k),
    decreases k,
{
    if k > 0 {
        lemma_text_start_prefix(ts, ots, k - 1);
        assert(ts[k - 1] == ots[k - 1]);
    }
}

/// Appending the piece `s[a..b]` after pieces that end at `a` keeps them well formed.
proof fn lemma_pieces_push(s: Seq<char>, v: Seq<StatementSlice>, x: StatementSlice, a: int, b: int)
    requires
        pieces_ok(s, slice_texts(v)),
        offsets_ok(s, v),
        text_start(slice_texts(v), v.len() as int) == a,
        0 <= a < b <= s.len(),
        x.text@ == s.subrange(a, b),
        v.len() > 0 ==> is_cut(s, a),
        no_cut_between(s, a, b),
        x.start == byte_len(s.subrange(0, a)),
        x.end == byte_len(s.subrange(0, b)),
    ensures
        pieces_ok(s, slice_texts(v.push(x))),
        offsets_ok(s, v.push(x)),
        text_start(slice_texts(v.push(x)), v.len() + 1 as int) == b,
{
    let ots = slice_texts(v);
    let ts = slice_texts(v.push(x));
    assert(ts.drop_last() =~= ots);
    assert forall|k: int| 0 <= k <= ots.len() implies text_start(ts, k) == text_start(ots, k) by {
        lemma_text_start_prefix(ts, ots, k);
    }
    assert(ts[v.len() as int] == x.text@);
    assert forall|k: int| 0 <= k < ts.len() implies #[trigger] ts[k] == s.subrange(
        text_start(ts, k),
        text_start(ts, k) + ts[k].len(),
    ) by {
        if k < ots.len() {
            assert(ts[k] == ots[k]);
        }
    }
    assert forall|k: int| 0 <= k < ts.len() implies (#[trigger] ts[k]).len() > 0 by {
        if k < ots.len() {
            assert(ts[k] == ots[k]);
        }
    }
    assert forall|k: int| 0 < k < ts.len() implies is_cut(s, #[trigger] text_start(ts, k)) by {}
    assert forall|k: int| 0 <= k < ts.len() implies no_cut_between(
        s,
        text_start(ts, k),
        text_start(ts, k) + (#[trigger] ts[k]).len(),
    ) by {
        if k < ots.len() {
            assert(ts[k] == ots[k]);
        }
    }
    let nv = v.push(x);
    assert forall|k: int| 0 <= k < nv.len() implies {
        &&& (#[trigger] nv[k]).start == byte_len(s.subrange(0, text_start(slice_texts(nv), k)))
        &&& nv[k].end == byte_len(
            s.subrange(0, text_start(slice_texts(nv), k) + nv[k].text@.len()),
        )
    } by {
        if k < v.len() {
            assert(nv[k] == v[k]);
        }
    }
}

fn char_byte_width(c: char) -> (r: usize)
    ensures
        r == char_width(c),
{
    if (c as u32) < 0x80 {
        1
    } else if (c as u32) < 0x800 {
        2
    } else if (c as u32) < 0x10000 {
        3
    } else {
        4
    }
}

/// Split input text into statement slices. A statement starts at each `@` or
/// `#` (past the first character) at bracket depth zero and outside string
/// literals; the slices cover the whole input.
pub fn split_statements(input: &str) -> (r: Vec<StatementSlice>)
    ensures
        input@.len() == 0 ==> r@.len() == 0,
        is_statement_split(input@, slice_texts(r@)),
        offsets_ok(input@, r@),
{
    let cs = chars_of(input);
    let n = cs.len();
    let mut statements: Vec<StatementSlice> = Vec::new();
    if n == 0 {
        assert(slice_texts(statements@) =~= Seq::<Seq<char>>::empty());
        return statements;
    }
    let total = input.as_bytes().len();
    proof {
        lemma_byte_len_encode(input@);
        assert(cs@.subrange(0, n as int) =~= cs@);
        assert(cs@.subrange(0, 0) =~= Seq::<char>::empty());
        assert(slice_texts(statements@) =~= Seq::<Seq<char>>::empty());
    }
    let mut current_start: usize = 0;
    let mut current_start_byte: usize = 0;
    let mut depth: i128 = 0;
    let mut in_string = false;
    let mut escape_next = false;
    let mut byte_pos: usize = 0;
    let mut i: usize = 0;
    while i < n
        invariant
            n == cs@.len(),
            cs@ == input@,
            n > 0,
            byte_len(cs@.subrange(0, n as int)) == total,
            0 <= current_start <= i <= n,
            i > 0 ==> current_start < i,
            -(i as int) <= depth <= i,
            (depth as int, in_string, escape_next) == scan_before(cs@, i as int),
            !in_string ==> !escape_next,
            byte_pos == byte_len(cs@.subrange(0, i as int)),
            current_start_byte == byte_len(cs@.subrange(0, current_start as int)),
            text_start(slice_texts(statements@), statements@.len() as int) == current_start,
            current_start > 0 ==> is_cut(cs@, current_start as int),
            statements@.len() > 0 <==> current_start > 0,
            no_cut_between(cs@, current_start as int, i as int),
            pieces_ok(cs@, slice_texts(statements@)),
            offsets_ok(cs@, statements@),
        decreases n - i,
    {
        let ch = cs[i];
        proof {
            lemma_byte_len_prefix(cs@, i + 1, n as int);
            assert(cs@.subrange(0, i + 1) =~= cs@.subrange(0, i as int).push(ch));
            lemma_byte_len_push(cs@.subrange(0, i as int), ch);
        }
        let ghost st = (depth as int, in_string, escape_next);
        let ghost cut_here = false;
        if in_string && escape_next {
            escape_next = false;
        } else if ch == '\\' && in_string {
            escape_next = true;
        } else if ch == '"' {
            in_string = !in_string;
            escape_next = false;
        } else if (ch == '(' || ch == '[' || ch == '{') && !in_string {
            depth = depth + 1;
        } else if (ch == ')' || ch == ']' || ch == '}') && !in_string {
            depth = depth - 1;
        } else if (ch == '@' || ch == '#') && depth == 0 && !in_string && i > 0 {
            // A new statement begins here: close the previous one.
            let text = string_from_range(cs.as_slice(), current_start, i);
            let piece = StatementSlice { text, start: current_start_byte, end: byte_pos };
            proof {
                assert(is_cut(cs@, i as int));
                lemma_pieces_push(
                    cs@,
                    statements@,
                    piece,
                    current_start as int,
                    i as int,
                );
                cut_here = true;
            }
            statements.push(piece);
            current_start = i;
            current_start_byte = byte_pos;
        } else {
            escape_next = false;
        }
        proof {
            assert(scan_before(cs@, i + 1) == scan_step(st, ch));
            if !cut_here {
                assert(!is_cut(cs@, i as int));
            }
        }
        byte_pos = byte_pos + char_byte_width(ch);
        i = i + 1;
    }
    // The final statement runs to the end of the input.
    let text = string_from_range(cs.as_slice(), current_start, n);
    let piece = StatementSlice { text, start: current_start_byte, end: byte_pos };
    proof {
        lemma_pieces_push(cs@, statements@, piece, current_start as int, n as int);
    }
    statements.push(piece);
    statements
}

pub proof fn lemma_text_start_mono(ts: Seq<Seq<char>>, k: int, m: int)
    requires
        0 <= k <= m <= ts.len(),
    ensures
        text_start(ts, k) <= text_start(ts, m),
    decreases m - k,
{
    if k < m {
        lemma_text_start_mono(ts, k, m - 1);
    }
}

proof fn lemma_concat_prefix(s: Seq<char>, ts: Seq<Seq<char>>, k: int)
    requires
        pieces_ok(s, ts),
        0 <= k <= ts.len(),
        text_start(ts, ts.len() as int) <= s.len(),
    ensures
        concat_texts(ts.subrange(0, k)) == s.subrange(0, text_start(ts, k)),
    decreases k,
{
    lemma_text_start_mono(ts, k, ts.len() as int);
    if k > 0 {
        lemma_concat_prefix(s, ts, k - 1);
        lemma_text_start_mono(ts, k - 1, ts.len() as int);
        let p = ts.subrange(0, k);
        assert(p.drop_last() =~= ts.subrange(0, k - 1));
        assert(p.last() == ts[k - 1]);
        assert(ts[k - 1] == s.subrange(
            text_start(ts, k - 1),
            text_start(ts, k - 1) + ts[k - 1].len(),
        ));
        assert(s.subrange(0, text_start(ts, k)) =~= s.subrange(0, text_start(ts, k - 1)) + ts[k
            - 1]);
    } else {
        assert(ts.subrange(0, 0) =~= Seq::<Seq<char>>::empty());
        assert(s.subrange(0, 0) =~= Seq::<char>::empty());
    }
}

/// The statement slices tile the input: their texts laid end to end give the
/// input back, the first starts at byte 0, each ends where the next starts,
/// and the last ends at the input's byte length.
pub proof fn lemma_slices_tile_input(input: Seq<char>, v: Seq<StatementSlice>)
    requires
        is_statement_split(input, slice_texts(v)),
        offsets_ok(input, v),
    ensures
        concat_texts(slice_texts(v)) == input,
        v.len() > 0 ==> v[0].start == 0,
        v.len() > 0 ==> v.last().end == byte_len(input),
        forall|k: int| 0 <= k < v.len() - 1 ==> (#[trigger] v[k]).end == v[k + 1].start,
        forall|k: int| 0 <= k < v.len() ==> (#[trigger] v[k]).start < v[k].end,
{
    let ts = slice_texts(v);
    lemma_concat_prefix(input, ts, 0);
    lemma_concat_prefix(input, ts, ts.len() as int);
    assert(ts.subrange(0, ts.len() as int) =~= ts);
    assert(input.subrange(0, input.len() as int) =~= input);
    if v.len() > 0 {
        assert(input.subrange(0, 0) =~= Seq::<char>::empty());
        assert(byte_len(Seq::<char>::empty()) == 0);
        assert(ts[v.len() - 1] == v.last().text@);
    }
    assert forall|k: int| 0 <= k < v.len() - 1 implies (#[trigger] v[k]).end == v[k + 1].start by {
        assert(ts[k] == v[k].text@);
    }
    assert forall|k: int| 0 <= k < v.len() implies (#[trigger] v[k]).start < v[k].end by {
        assert(ts[k] == v[k].text@);
        assert(ts[k].len() > 0);
        lemma_text_start_mono(ts, k + 1, ts.len() as int);
        let a = text_start(ts, k);
        let b = a + ts[k].len();
        assert(input.subrange(0, b) =~= input.subrange(0, b - 1).push(input[b - 1]));
        lemma_byte_len_push(input.subrange(0, b - 1), input[b - 1]);
        lemma_byte_len_prefix(input, a, b - 1);
    }
}

} // verus!
