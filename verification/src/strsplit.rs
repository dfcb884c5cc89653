//! Splitting the height list string.
//!
//! A record's heights arrive as a brace-delimited, comma-separated
//! string such as `{100,205,310}`. Braces are trimmed from both ends,
//! and the remainder is split on commas; every piece must then read as
//! a decimal number.

use vstd::prelude::*;

verus! {

/// Whether `c` is one of the brace characters trimmed from the ends of
/// a height list.
pub open spec fn is_brace(c: char) -> bool {
    c == '{' || c == '}'
}

/// Drop leading brace characters.
pub open spec fn trim_start(s: Seq<char>) -> Seq<char>
    decreases s.len(),
{
    if s.len() > 0 && is_brace(s[0]) {
        trim_start(s.skip(1))
    } else {
        s
    }
}

/// Drop trailing brace characters.
pub open spec fn trim_end(s: Seq<char>) -> Seq<char>
    decreases s.len(),
{
    if s.len() > 0 && is_brace(s.last()) {
        trim_end(s.drop_last())
    } else {
        s
    }
}

/// Drop brace characters from both ends.
pub open spec fn trim_braces(s: Seq<char>) -> Seq<char> {
    trim_end(trim_start(s))
}

/// The pieces of `s` between commas. A string without commas is one
/// piece; every comma starts a new piece, so there is always at least
/// one piece and an empty string yields one empty piece.
pub open spec fn split_commas(s: Seq<char>) -> Seq<Seq<char>>
    decreases s.len(),
{
    if s.len() == 0 {
        seq![Seq::<char>::empty()]
    } else if s[0] == ',' {
        seq![Seq::<char>::empty()] + split_commas(s.skip(1))
    } else {
        let rest = split_commas(s.skip(1));
        seq![seq![s[0]] + rest[0]] + rest.skip(1)
    }
}

/// There is always at least one piece.
pub proof fn lemma_split_commas_nonempty(s: Seq<char>)
    ensures
        split_commas(s).len() >= 1,
    decreases s.len(),
{
    if s.len() > 0 {
        lemma_split_commas_nonempty(s.skip(1));
    }
}

/// How the first piece comes off: if the first comma of `s` stands at
/// `j`, the pieces are `s.take(j)` followed by the pieces of what comes
/// after the comma; if `s` has no comma, it is one piece.
pub proof fn lemma_split_first_piece(s: Seq<char>, j: int)
    requires
        0 <= j <= s.len(),
        forall|k: int| 0 <= k < j ==> s[k] != ',',
        j < s.len() ==> s[j] == ',',
    ensures
        j == s.len() ==> split_commas(s) == seq![s],
        j < s.len() ==> split_commas(s) == seq![s.take(j)] + split_commas(s.skip(j + 1)),
    decreases j,
{
    lemma_split_commas_nonempty(s);
    if j == 0 {
        if j == s.len() {
            assert(split_commas(s) =~~= seq![s]);
        } else {
            assert(s.take(0) =~= Seq::<char>::empty());
            assert(split_commas(s) =~~= seq![s.take(0)] + split_commas(s.skip(1)));
        }
    } else {
        let t = s.skip(1);
        lemma_split_commas_nonempty(t);
        assert(forall|k: int| 0 <= k < j - 1 ==> #[trigger] t[k] == s[k + 1]);
        lemma_split_first_piece(t, j - 1);
        let rest = split_commas(t);
        if j == s.len() {
            assert(rest == seq![t]);
            assert(seq![s[0]] + t =~= s);
            assert(split_commas(s) =~~= seq![s]);
        } else {
            assert(rest == seq![t.take(j - 1)] + split_commas(t.skip(j)));
            assert(rest[0] == t.take(j - 1));
            assert(rest.skip(1) =~~= split_commas(t.skip(j)));
            assert(t.skip(j) =~= s.skip(j + 1));
            assert(seq![s[0]] + t.take(j - 1) =~= s.take(j));
            assert(split_commas(s) =~~= seq![s.take(j)] + split_commas(s.skip(j + 1)));
        }
    }
}

/// `trim_start` drops exactly the leading braces: if the characters
/// before `lo` are braces and the one at `lo` (if any) is not, the
/// result is `s.skip(lo)`.
pub proof fn lemma_trim_start_at(s: Seq<char>, lo: int)
    requires
        0 <= lo <= s.len(),
        forall|j: int| 0 <= j < lo ==> is_brace(#[trigger] s[j]),
        lo < s.len() ==> !is_brace(s[lo]),
    ensures
        trim_start(s) == s.skip(lo),
    decreases lo,
{
    if lo == 0 {
        assert(s.skip(0) =~= s);
    } else {
        let t = s.skip(1);
        assert(forall|j: int| 0 <= j < lo - 1 ==> #[trigger] t[j] == s[j + 1]);
        lemma_trim_start_at(t, lo - 1);
        assert(t.skip(lo - 1) =~= s.skip(lo));
    }
}

/// `trim_end` drops exactly the trailing braces: if the characters from
/// `hi` on are braces and the one before `hi` (if any) is not, the
/// result is `s.take(hi)`.
pub proof fn lemma_trim_end_at(s: Seq<char>, hi: int)
    requires
        0 <= hi <= s.len(),
        forall|j: int| hi <= j < s.len() ==> is_brace(#[trigger] s[j]),
        hi > 0 ==> !is_brace(s[hi - 1]),
    ensures
        trim_end(s) == s.take(hi),
    decreases s.len() - hi,
{
    if hi == s.len() {
        assert(s.take(hi) =~= s);
    } else {
        let t = s.drop_last();
        assert(forall|j: int| hi <= j < t.len() ==> #[trigger] t[j] == s[j]);
        lemma_trim_end_at(t, hi);
        assert(t.take(hi) =~= s.take(hi));
    }
}

} // verus!
