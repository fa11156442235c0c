use vstd::prelude::*;
use crate::lexer::{is_cut, is_statement_split, lemma_text_start_mono, no_cut_between, text_start};

verus! {

proof fn lemma_piece_facts(s: Seq<char>, a: Seq<Seq<char>>, j: int)
    requires
        is_statement_split(s, a),
        0 <= j < a.len(),
    ensures
        a[j] == s.subrange(text_start(a, j), text_start(a, j) + a[j].len()),
        a[j].len() > 0,
        text_start(a, j + 1) == text_start(a, j) + a[j].len(),
        text_start(a, j + 1) <= s.len(),
        j + 1 == a.len() ==> text_start(a, j + 1) == s.len(),
        no_cut_between(s, text_start(a, j), text_start(a, j + 1)),
        j + 1 < a.len() ==> is_cut(s, text_start(a, j + 1)),
{
    lemma_text_start_mono(a, j + 1, a.len() as int);
    assert(a[j] == s.subrange(text_start(a, j), text_start(a, j) + a[j].len()));
    assert(a[j].len() > 0);
    assert(no_cut_between(s, text_start(a, j), text_start(a, j) + a[j].len()));
    if j + 1 < a.len() {
        assert(is_cut(s, text_start(a, j + 1)));
    }
}

proof fn lemma_piece_step(s: Seq<char>, st: int, ea: int, eb: int, last_a: bool, last_b: bool)
    requires
        st < ea <= s.len(),
        st < eb <= s.len(),
        no_cut_between(s, st, ea),
        no_cut_between(s, st, eb),
        !last_a ==> is_cut(s, ea),
        last_a ==> ea == s.len(),
        !last_b ==> is_cut(s, eb),
        last_b ==> eb == s.len(),
    ensures
        ea == eb,
{
    if ea < eb {
        assert(!is_cut(s, ea));
    }
    if eb < ea {
        assert(!is_cut(s, eb));
    }
}

#[verifier::opaque]
spec fn both_splits(s: Seq<char>, a: Seq<Seq<char>>, b: Seq<Seq<char>>) -> bool {
    is_statement_split(s, a) && is_statement_split(s, b)
}

proof fn lemma_piece_facts_both(s: Seq<char>, a: Seq<Seq<char>>, b: Seq<Seq<char>>, j: int)
    requires
        both_splits(s, a, b),
        0 <= j < a.len(),
        j < b.len(),
    ensures
        a[j] == s.subrange(text_start(a, j), text_start(a, j + 1)),
        b[j] == s.subrange(text_start(b, j), text_start(b, j + 1)),
        text_start(a, j) < text_start(a, j + 1) <= s.len(),
        text_start(b, j) < text_start(b, j + 1) <= s.len(),
        no_cut_between(s, text_start(a, j), text_start(a, j + 1)),
        no_cut_between(s, text_start(b, j), text_start(b, j + 1)),
        j + 1 < a.len() ==> is_cut(s, text_start(a, j + 1)),
        j + 1 == a.len() ==> text_start(a, j + 1) == s.len(),
        j + 1 < b.len() ==> is_cut(s, text_start(b, j + 1)),
        j + 1 == b.len() ==> text_start(b, j + 1) == s.len(),
{
    reveal(both_splits);
    lemma_piece_facts(s, a, j);
    lemma_piece_facts(s, b, j);
}

proof fn lemma_split_agree_upto(s: Seq<char>, a: Seq<Seq<char>>, b: Seq<Seq<char>>, k: int)
    requires
        both_splits(s, a, b),
        0 <= k <= a.len(),
        k <= b.len(),
    ensures
        text_start(a, k) == text_start(b, k),
        forall|j: int| 0 <= j < k ==> a[j] == b[j],
    decreases k,
{
    if k > 0 {
        lemma_split_agree_upto(s, a, b, k - 1);
        let j = k - 1;
        lemma_piece_facts_both(s, a, b, j);
        lemma_piece_step(
            s,
            text_start(a, j),
            text_start(a, k),
            text_start(b, k),
            k == a.len(),
            k == b.len(),
        );
        assert(a[j] == b[j]);
    }
}

/// A text has exactly one statement split.
pub proof fn lemma_split_unique(s: Seq<char>, a: Seq<Seq<char>>, b: Seq<Seq<char>>)
    requires
        is_statement_split(s, a),
        is_statement_split(s, b),
    ensures
        a == b,
{
    reveal(both_splits);
    if a.len() <= b.len() {
        lemma_split_agree_upto(s, a, b, a.len() as int);
        if a.len() < b.len() {
            let k = a.len() as int;
            lemma_piece_facts(s, b, k);
        }
    } else {
        lemma_split_agree_upto(s, a, b, b.len() as int);
        let k = b.len() as int;
        lemma_piece_facts(s, a, k);
    }
    assert(a =~= b);
}

/// The statement texts of `s`: the one split that `is_statement_split` allows.
pub open spec fn split_spec(s: Seq<char>) -> Seq<Seq<char>> {
    choose|ts: Seq<Seq<char>>| is_statement_split(s, ts)
}

/// What `split_statements` returns is `split_spec`.
pub proof fn lemma_split_is_split_spec(s: Seq<char>, ts: Seq<Seq<char>>)
    requires
        is_statement_split(s, ts),
    ensures
        split_spec(s) == ts,
{
    lemma_split_unique(s, split_spec(s), ts);
}

} // verus!
