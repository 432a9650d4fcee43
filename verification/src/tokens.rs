//! Splitting message text into literal tokens.
//!
//! Text is split on the ASCII space character; empty tokens are dropped, so
//! runs of spaces and leading or trailing spaces contribute nothing.

use vstd::prelude::*;
use vstd::string::StrSliceExecFns;

verus! {

/// The tokens of `s` from position `i` onward: maximal runs of non-space
/// characters, in order.
pub open spec fn tokens_from(s: Seq<char>, i: int) -> Seq<Seq<char>>
    decreases s.len() - i,
{
    if i < 0 || i >= s.len() {
        Seq::empty()
    } else if s[i] == ' ' {
        tokens_from(s, i + 1)
    } else {
        let rest = tokens_from(s, i + 1);
        if i + 1 < s.len() && s[i + 1] != ' ' {
            seq![seq![s[i]] + rest[0]] + rest.drop_first()
        } else {
            seq![seq![s[i]]] + rest
        }
    }
}

/// The tokens of the whole of `s`.
pub open spec fn tokens_of(s: Seq<char>) -> Seq<Seq<char>> {
    tokens_from(s, 0)
}


/// A well-formed word literal: at least one character, none of them a space.
pub open spec fn is_word_literal(t: Seq<char>) -> bool {
    t.len() > 0 && forall|u: int| 0 <= u < t.len() ==> t[u] != ' '
}

/// Every token is a well-formed word literal.
pub proof fn lemma_tokens_are_word_literals(s: Seq<char>, i: int)
    ensures
        forall|t: int|
            0 <= t < tokens_from(s, i).len() ==> is_word_literal(#[trigger] tokens_from(s, i)[t]),
    decreases s.len() - i,
{
    if i < 0 || i >= s.len() {
    } else if s[i] == ' ' {
        lemma_tokens_are_word_literals(s, i + 1);
    } else {
        lemma_tokens_are_word_literals(s, i + 1);
        let rest = tokens_from(s, i + 1);
        let toks = tokens_from(s, i);
        if i + 1 < s.len() && s[i + 1] != ' ' {
            assert(rest.len() >= 1);
            assert forall|t: int| 0 <= t < toks.len() implies is_word_literal(
                #[trigger] toks[t],
            ) by {
                if t == 0 {
                    assert(toks[0] == seq![s[i]] + rest[0]);
                    assert(is_word_literal(rest[0]));
                    assert forall|u: int| 0 <= u < toks[0].len() implies toks[0][u] != ' ' by {
                        if u > 0 {
                            assert(toks[0][u] == rest[0][u - 1]);
                        }
                    }
                } else {
                    assert(toks[t] == rest.drop_first()[t - 1]);
                    assert(rest.drop_first()[t - 1] == rest[t]);
                    assert(is_word_literal(rest[t]));
                }
            }
        } else {
            assert forall|t: int| 0 <= t < toks.len() implies is_word_literal(
                #[trigger] toks[t],
            ) by {
                if t == 0 {
                    assert(toks[0] =~= seq![s[i]]);
                } else {
                    assert(toks[t] == rest[t - 1]);
                    assert(is_word_literal(rest[t - 1]));
                }
            }
        }
    }
}

/// A maximal non-space run contributes exactly one token.
proof fn lemma_token_run(s: Seq<char>, start: int, end: int)
    requires
        0 <= start < end <= s.len(),
        forall|j: int| start <= j < end ==> s[j] != ' ',
        end == s.len() || s[end as int] == ' ',
    ensures
        tokens_from(s, start) == seq![s.subrange(start, end)] + tokens_from(s, end),
    decreases end - start,
{
    if start + 1 == end {
        assert(s[start] != ' ');
        if end < s.len() {
            assert(s[end] == ' ');
            assert(tokens_from(s, start) == seq![seq![s[start]]] + tokens_from(s, start + 1));
        }
        assert(s.subrange(start, end) =~= seq![s[start]]);
        assert(tokens_from(s, start) =~= seq![s.subrange(start, end)] + tokens_from(s, end));
    } else {
        lemma_token_run(s, start + 1, end);
        let rest = tokens_from(s, start + 1);
        assert(s[start + 1] != ' ');
        assert(rest == seq![s.subrange(start + 1, end)] + tokens_from(s, end));
        assert(rest[0] == s.subrange(start + 1, end));
        assert(seq![s[start]] + rest[0] =~= s.subrange(start, end));
        assert(rest.drop_first() =~= tokens_from(s, end));
        assert(tokens_from(s, start) =~= seq![s.subrange(start, end)] + tokens_from(s, end));
    }
}

/// Split `content` on spaces into its non-empty tokens, in order.
pub fn tokenize(content: &str) -> (r: Vec<String>)
    ensures
        r.deep_view() == tokens_of(content@),
        r@.len() == tokens_of(content@).len(),
        forall|j: int| 0 <= j < r@.len() ==> #[trigger] r@[j]@ == tokens_of(content@)[j],
{
    let n = content.unicode_len();
    let mut r: Vec<String> = Vec::new();
    let mut i: usize = 0;
    while i < n
        invariant
            n == content@.len(),
            i <= n,
            tokens_of(content@) == r.deep_view() + tokens_from(content@, i as int),
            forall|j: int| 0 <= j < r@.len() ==> #[trigger] r@[j]@ == r.deep_view()[j],
            r@.len() == r.deep_view().len(),
        decreases n - i,
    {
        let c = content.get_char(i);
        if c == ' ' {
            i += 1;
        } else {
            let start = i;
            i += 1;
            while i < n && content.get_char(i) != ' '
                invariant
                    n == content@.len(),
                    start < i <= n,
                    forall|j: int| start <= j < i ==> content@[j] != ' ',
                decreases n - i,
            {
                i += 1;
            }
            let tok = content.substring_char(start, i).to_owned();
            proof {
                lemma_token_run(content@, start as int, i as int);
                assert(tok@ == content@.subrange(start as int, i as int));
            }
            let ghost dv = r.deep_view();
            r.push(tok);
            proof {
                assert(r.deep_view() =~= dv.push(tok@));
                assert(tokens_from(content@, start as int)[0] == tok@);
                assert(tokens_of(content@) =~= r.deep_view() + tokens_from(content@, i as int));
            }
        }
    }
    proof {
        assert(tokens_from(content@, n as int) =~= Seq::<Seq<char>>::empty());
        assert(tokens_of(content@) =~= r.deep_view());
    }
    r
}

} // verus!
