//! Properties of the window search: which windows match a query, and that
//! the order of a ranking is fully determined.

use crate::search::{
    best_substring, field_initials, field_model, field_score, field_text, greedy_end, is_ranking,
    lemma_greedy_end_fails, lemma_greedy_end_increasing, listed_before, opt_max, query_score,
    subsequence_score, token_best, window_score, FieldModel, WindowInfo,
};
use crate::text::{first_from, lemma_first_from_bounds, lower_chars, occurs_at, starts_with};
use vstd::prelude::*;

verus! {

/// A window matches a query exactly when every word of the query matches
/// its application name or its title.
pub proof fn lemma_match_needs_every_token(tokens: Seq<Seq<char>>, fs: Seq<FieldModel>)
    ensures
        query_score(tokens, fs) is Some <==> forall|k: int| 0 <= k < tokens.len() ==> (#[trigger] token_best(fs, tokens[k])) is Some,
    decreases tokens.len(),
{
    if tokens.len() > 0 {
        let rest = tokens.drop_last();
        lemma_match_needs_every_token(rest, fs);
        assert forall|k: int| 0 <= k < rest.len() implies #[trigger] rest[k] == tokens[k] by {}
        if query_score(tokens, fs) is Some {
            assert forall|k: int| 0 <= k < tokens.len() implies (#[trigger] token_best(fs, tokens[k])) is Some by {
                if k < rest.len() {
                    assert(rest[k] == tokens[k]);
                }
            }
        } else if forall|k: int| 0 <= k < tokens.len() ==> (#[trigger] token_best(fs, tokens[k])) is Some {
            assert forall|k: int| 0 <= k < rest.len() implies (#[trigger] token_best(fs, rest[k])) is Some by {
                assert(rest[k] == tokens[k]);
                assert(token_best(fs, tokens[k]) is Some);
            }
            assert(token_best(fs, tokens[tokens.len() - 1]) is Some);
        }
    }
}

/// Adding a word to a query never brings in a window that the shorter
/// query did not match.
pub proof fn lemma_more_words_match_fewer(tokens: Seq<Seq<char>>, word: Seq<char>, w: WindowInfo, preferred: Option<u64>)
    ensures
        window_score(tokens.push(word), w, preferred) is Some ==> window_score(tokens, w, preferred) is Some,
{
    assert(tokens.push(word).drop_last() == tokens);
}

proof fn lemma_listed_before_asymmetric(
    tokens: Seq<Seq<char>>,
    ws: Seq<WindowInfo>,
    preferred: Option<u64>,
    a: int,
    b: int,
)
    ensures
        !(listed_before(tokens, ws, preferred, a, b) && listed_before(tokens, ws, preferred, b, a)),
{
}

/// Two sequences without repeats, ordered by `listed_before` and holding
/// the same windows, are equal.
proof fn lemma_sorted_unique(
    r1: Seq<usize>,
    r2: Seq<usize>,
    ws: Seq<WindowInfo>,
    tokens: Seq<Seq<char>>,
    preferred: Option<u64>,
)
    requires
        forall|a: int, b: int| 0 <= a < b < r1.len() ==> listed_before(tokens, ws, preferred, #[trigger] r1[a] as int, #[trigger] r1[b] as int),
        forall|a: int, b: int| 0 <= a < b < r2.len() ==> listed_before(tokens, ws, preferred, #[trigger] r2[a] as int, #[trigger] r2[b] as int),
        forall|x: usize| r1.contains(x) <==> r2.contains(x),
    ensures
        r1 == r2,
    decreases r1.len() + r2.len(),
{
    if r1.len() == 0 {
        if r2.len() > 0 {
            assert(r2.contains(r2[0]));
        }
        assert(r1 =~= r2);
    } else if r2.len() == 0 {
        assert(r1.contains(r1[0]));
    } else {
        let h1 = r1[0];
        let h2 = r2[0];
        if h1 != h2 {
            assert(r1.contains(h2)) by {
                assert(r2.contains(h2));
            }
            let p = choose|p: int| 0 <= p < r1.len() && r1[p] == h2;
            assert(p > 0);
            assert(listed_before(tokens, ws, preferred, r1[0] as int, r1[p] as int));
            assert(r2.contains(h1)) by {
                assert(r1.contains(h1));
            }
            let q = choose|q: int| 0 <= q < r2.len() && r2[q] == h1;
            assert(q > 0);
            assert(listed_before(tokens, ws, preferred, r2[0] as int, r2[q] as int));
            lemma_listed_before_asymmetric(tokens, ws, preferred, h1 as int, h2 as int);
        }
        let t1 = r1.drop_first();
        let t2 = r2.drop_first();
        assert forall|x: usize| t1.contains(x) <==> t2.contains(x) by {
            if t1.contains(x) {
                let i = choose|i: int| 0 <= i < t1.len() && t1[i] == x;
                assert(r1[i + 1] == x);
                assert(x != h1) by {
                    lemma_listed_before_asymmetric(tokens, ws, preferred, h1 as int, h1 as int);
                    assert(listed_before(tokens, ws, preferred, r1[0] as int, r1[i + 1] as int));
                }
                assert(r1.contains(x));
                let j = choose|j: int| 0 <= j < r2.len() && r2[j] == x;
                assert(j > 0);
                assert(t2[j - 1] == x);
            }
            if t2.contains(x) {
                let i = choose|i: int| 0 <= i < t2.len() && t2[i] == x;
                assert(r2[i + 1] == x);
                assert(x != h2) by {
                    lemma_listed_before_asymmetric(tokens, ws, preferred, h2 as int, h2 as int);
                    assert(listed_before(tokens, ws, preferred, r2[0] as int, r2[i + 1] as int));
                }
                assert(r2.contains(x));
                let j = choose|j: int| 0 <= j < r1.len() && r1[j] == x;
                assert(j > 0);
                assert(t1[j - 1] == x);
            }
        }
        assert forall|a: int, b: int| 0 <= a < b < t1.len() implies listed_before(tokens, ws, preferred, #[trigger] t1[a] as int, #[trigger] t1[b] as int) by {
            assert(t1[a] == r1[a + 1] && t1[b] == r1[b + 1]);
        }
        assert forall|a: int, b: int| 0 <= a < b < t2.len() implies listed_before(tokens, ws, preferred, #[trigger] t2[a] as int, #[trigger] t2[b] as int) by {
            assert(t2[a] == r2[a + 1] && t2[b] == r2[b + 1]);
        }
        lemma_sorted_unique(t1, t2, ws, tokens, preferred);
        assert(r1 =~= r2) by {
            assert forall|i: int| 0 <= i < r1.len() implies r1[i] == r2[i] by {
                if i > 0 {
                    assert(r1[i] == t1[i - 1]);
                    assert(r2[i] == t2[i - 1]);
                }
            }
        }
    }
}

/// The order of a ranking is fully determined: ties in score keep the
/// listing order, so two rankings of the same windows for the same query
/// are the same sequence.
pub proof fn lemma_ranking_is_unique(
    r1: Seq<usize>,
    r2: Seq<usize>,
    ws: Seq<WindowInfo>,
    tokens: Seq<Seq<char>>,
    preferred: Option<u64>,
)
    requires
        is_ranking(r1, ws, tokens, preferred),
        is_ranking(r2, ws, tokens, preferred),
    ensures
        r1 == r2,
{
    assert forall|x: usize| r1.contains(x) <==> r2.contains(x) by {
        if r1.contains(x) {
            let k = choose|k: int| 0 <= k < r1.len() && r1[k] == x;
            assert(window_score(tokens, ws[r1[k] as int], preferred) is Some);
            assert(r2.contains(x as int as usize));
        }
        if r2.contains(x) {
            let k = choose|k: int| 0 <= k < r2.len() && r2[k] == x;
            assert(window_score(tokens, ws[r2[k] as int], preferred) is Some);
            assert(r1.contains(x as int as usize));
        }
    }
    lemma_sorted_unique(r1, r2, ws, tokens, preferred);
}

/// `idx` places the characters of `t` at increasing positions of `s`.
pub open spec fn embeds(idx: Seq<int>, t: Seq<char>, s: Seq<char>) -> bool {
    &&& idx.len() == t.len()
    &&& forall|k: int| 0 <= k < t.len() ==> 0 <= #[trigger] idx[k] < s.len() && s[idx[k]] == t[k]
    &&& forall|a: int, b: int| 0 <= a < b < t.len() ==> #[trigger] idx[a] < #[trigger] idx[b]
}

/// `t` is an in-order, not necessarily contiguous, subsequence of `s`.
pub open spec fn subsequence_of(t: Seq<char>, s: Seq<char>) -> bool {
    exists|idx: Seq<int>| embeds(idx, t, s)
}

proof fn lemma_first_from_at_most(s: Seq<char>, c: char, from: int, j: int)
    requires
        0 <= from <= j < s.len(),
        s[j] == c,
    ensures
        first_from(s, c, from) <= j,
    decreases j - from,
{
    if s[from] != c {
        lemma_first_from_at_most(s, c, from + 1, j);
    }
}

/// The greedy match never lies past any placement of the token.
proof fn lemma_greedy_at_most(s: Seq<char>, t: Seq<char>, idx: Seq<int>, k: int)
    requires
        embeds(idx, t, s),
        0 <= k < t.len(),
    ensures
        greedy_end(s, t, k) <= idx[k],
    decreases k,
{
    if k == 0 {
        lemma_first_from_at_most(s, t[0], 0, idx[0]);
    } else {
        lemma_greedy_at_most(s, t, idx, k - 1);
        assert(idx[k - 1] < idx[k]);
        lemma_greedy_end_increasing(s, t, k - 1);
        lemma_first_from_at_most(s, t[k], greedy_end(s, t, k - 1) + 1, idx[k]);
    }
}

proof fn lemma_greedy_gap(s: Seq<char>, t: Seq<char>, a: int, b: int)
    requires
        0 <= a <= b,
        greedy_end(s, t, b) < s.len(),
    ensures
        greedy_end(s, t, a) + (b - a) <= greedy_end(s, t, b),
    decreases b - a,
{
    if a < b {
        lemma_greedy_end_increasing(s, t, b);
        lemma_greedy_gap(s, t, a, b - 1);
    }
}

/// The greedy subsequence match succeeds exactly when the token is a
/// subsequence.
proof fn lemma_greedy_iff_subsequence(s: Seq<char>, t: Seq<char>)
    requires
        t.len() > 0,
    ensures
        subsequence_score(s, t) is Some <==> subsequence_of(t, s),
{
    let last = t.len() - 1;
    if greedy_end(s, t, last) < s.len() {
        let idx = Seq::new(t.len(), |k: int| greedy_end(s, t, k));
        assert forall|k: int| 0 <= k < t.len() implies 0 <= #[trigger] idx[k] < s.len() && s[idx[k]] == t[k] by {
            if greedy_end(s, t, k) >= s.len() {
                lemma_greedy_end_fails(s, t, k, last);
            }
            lemma_greedy_end_increasing(s, t, k);
            if k == 0 {
                lemma_first_from_bounds(s, t[0], 0);
            } else {
                lemma_greedy_end_increasing(s, t, k - 1);
                lemma_first_from_bounds(s, t[k], greedy_end(s, t, k - 1) + 1);
            }
        }
        assert forall|a: int, b: int| 0 <= a < b < t.len() implies #[trigger] idx[a] < #[trigger] idx[b] by {
            if greedy_end(s, t, b) >= s.len() {
                lemma_greedy_end_fails(s, t, b, last);
            }
            lemma_greedy_gap(s, t, a, b);
        }
        assert(embeds(idx, t, s));
    }
    if subsequence_of(t, s) {
        let idx = choose|idx: Seq<int>| embeds(idx, t, s);
        lemma_greedy_at_most(s, t, idx, last);
    }
}

proof fn lemma_occurrence_is_subsequence(s: Seq<char>, t: Seq<char>, i: int)
    requires
        occurs_at(s, t, i),
    ensures
        subsequence_of(t, s),
{
    let idx = Seq::new(t.len(), |k: int| i + k);
    assert forall|k: int| 0 <= k < t.len() implies 0 <= #[trigger] idx[k] < s.len() && s[idx[k]] == t[k] by {
        assert(s.subrange(i, i + t.len())[k] == s[i + k]);
    }
    assert(embeds(idx, t, s));
}

proof fn lemma_best_substring_occurs(f: FieldModel, t: Seq<char>, n: int)
    requires
        best_substring(f, t, n) is Some,
    ensures
        exists|i: int| occurs_at(f.chars, t, i),
    decreases n,
{
    if n > 0 && !occurs_at(f.chars, t, n - 1) {
        lemma_best_substring_occurs(f, t, n - 1);
    }
}

/// The initials of a text are placed, in order, among its lowercase characters.
proof fn initials_placement(t: Seq<char>) -> (idx: Seq<int>)
    ensures
        embeds(idx, field_initials(t), lower_chars(t)),
    decreases t.len(),
{
    if t.len() == 0 {
        seq![]
    } else {
        let prev = initials_placement(t.drop_last());
        let base = lower_chars(t.drop_last());
        let low = crate::text::lowercase_of(t.last());
        let added = if crate::search::word_start_at(t, t.len() - 1) {
            Seq::new(low.len(), |k: int| base.len() + k)
        } else {
            Seq::<int>::empty()
        };
        let idx = prev + added;
        let ini = field_initials(t);
        let chars = lower_chars(t);
        assert(chars == base + low);
        let pi = field_initials(t.drop_last());
        assert forall|k: int| 0 <= k < ini.len() implies 0 <= #[trigger] idx[k] < chars.len() && chars[idx[k]] == ini[k] by {
            if k < pi.len() {
                assert(idx[k] == prev[k]);
                assert(ini[k] == pi[k]);
                assert(chars[prev[k]] == base[prev[k]]);
            } else {
                assert(idx[k] == base.len() + (k - pi.len()));
                assert(ini[k] == low[k - pi.len()]);
            }
        }
        assert forall|a: int, b: int| 0 <= a < b < ini.len() implies #[trigger] idx[a] < #[trigger] idx[b] by {
            if b < pi.len() {
                assert(idx[a] == prev[a] && idx[b] == prev[b]);
            } else if a < pi.len() {
                assert(idx[a] == prev[a]);
                assert(0 <= prev[a] < base.len());
            }
        }
        idx
    }
}

/// A token matches a field exactly when it is an in-order (not necessarily
/// contiguous) subsequence of the field's lowercase characters: exact,
/// prefix, substring and initials matches are all such subsequences.
pub proof fn lemma_token_matches_iff_subsequence(text: Seq<char>, token: Seq<char>)
    requires
        token.len() > 0,
    ensures
        field_score(field_model(text), token) is Some <==> subsequence_of(token, field_model(text).chars),
{
    let f = field_model(text);
    lemma_greedy_iff_subsequence(f.chars, token);
    if field_score(f, token) is Some {
        if f.chars == token {
            assert(f.chars.subrange(0, token.len() as int) == token);
            lemma_occurrence_is_subsequence(f.chars, token, 0);
        } else if starts_with(f.chars, token) {
            lemma_occurrence_is_subsequence(f.chars, token, 0);
        } else if subsequence_score(f.chars, token) is None {
            let best = best_substring(f, token, f.chars.len() as int);
            if starts_with(f.initials, token) {
                let idx = initials_placement(field_text(text));
                let sub = idx.take(token.len() as int);
                assert forall|k: int| 0 <= k < token.len() implies 0 <= #[trigger] sub[k] < f.chars.len() && f.chars[sub[k]] == token[k] by {
                    assert(f.initials.subrange(0, token.len() as int)[k] == f.initials[k]);
                }
                assert(embeds(sub, token, f.chars));
            } else {
                assert(best is Some);
                lemma_best_substring_occurs(f, token, f.chars.len() as int);
                let i = choose|i: int| occurs_at(f.chars, token, i);
                lemma_occurrence_is_subsequence(f.chars, token, i);
            }
        }
    }
}

/// A window matches a query exactly when each word of the query is an
/// in-order subsequence of its lowercased application name or title; the
/// preferred window only changes scores, never which windows match.
pub proof fn lemma_window_matches_iff_subsequences(tokens: Seq<Seq<char>>, w: WindowInfo, preferred: Option<u64>)
    requires
        forall|k: int| 0 <= k < tokens.len() ==> (#[trigger] tokens[k]).len() > 0,
    ensures
        (window_score(tokens, w, preferred) is Some) <==> forall|k: int| 0 <= k < tokens.len() ==> subsequence_of(
            #[trigger] tokens[k],
            field_model(w.app@).chars,
        ) || subsequence_of(tokens[k], field_model(w.title@).chars),
        (window_score(tokens, w, preferred) is Some) == (window_score(tokens, w, None) is Some),
{
    let fs = seq![field_model(w.app@), field_model(w.title@)];
    lemma_match_needs_every_token(tokens, fs);
    assert(fs.drop_last() == seq![field_model(w.app@)]);
    assert(fs.drop_last().drop_last() == Seq::<FieldModel>::empty());
    assert forall|k: int| 0 <= k < tokens.len() implies (#[trigger] token_best(fs, tokens[k]) is Some) == (subsequence_of(
        tokens[k],
        field_model(w.app@).chars,
    ) || subsequence_of(tokens[k], field_model(w.title@).chars)) by {
        lemma_token_matches_iff_subsequence(w.app@, tokens[k]);
        lemma_token_matches_iff_subsequence(w.title@, tokens[k]);
        assert(token_best(fs.drop_last(), tokens[k]) == opt_max(token_best(fs.drop_last().drop_last(), tokens[k]), field_score(field_model(w.app@), tokens[k])));
    }
    assert(window_score(tokens, w, preferred) is Some <==> query_score(tokens, fs) is Some);
    if query_score(tokens, fs) is Some {
        assert forall|k: int| 0 <= k < tokens.len() implies subsequence_of(
            #[trigger] tokens[k],
            field_model(w.app@).chars,
        ) || subsequence_of(tokens[k], field_model(w.title@).chars) by {
            assert(token_best(fs, tokens[k]) is Some);
        }
    }
    if forall|k: int| 0 <= k < tokens.len() ==> subsequence_of(
        #[trigger] tokens[k],
        field_model(w.app@).chars,
    ) || subsequence_of(tokens[k], field_model(w.title@).chars) {
        assert forall|k: int| 0 <= k < tokens.len() implies #[trigger] token_best(fs, tokens[k]) is Some by {
            assert(subsequence_of(tokens[k], field_model(w.app@).chars) || subsequence_of(tokens[k], field_model(w.title@).chars));
        }
    }
}

/// A token's score over several fields is the best of its scores over the
/// fields: at least the score of every field it matches, and equal to the
/// score of one of them; it matches when some field does.
pub proof fn lemma_token_takes_best_field(fs: Seq<FieldModel>, t: Seq<char>)
    ensures
        forall|i: int|
            0 <= i < fs.len() && (#[trigger] field_score(fs[i], t)) is Some ==> token_best(fs, t) is Some
                && field_score(fs[i], t)->0 <= token_best(fs, t)->0,
        token_best(fs, t) is Some ==> exists|i: int| 0 <= i < fs.len() && #[trigger] field_score(fs[i], t) == token_best(fs, t),
        token_best(fs, t) is None ==> forall|i: int| 0 <= i < fs.len() ==> (#[trigger] field_score(fs[i], t)) is None,
    decreases fs.len(),
{
    if fs.len() > 0 {
        let rest = fs.drop_last();
        let n = fs.len() - 1;
        lemma_token_takes_best_field(rest, t);
        assert forall|i: int| 0 <= i < fs.len() && (#[trigger] field_score(fs[i], t)) is Some implies token_best(fs, t) is Some
            && field_score(fs[i], t)->0 <= token_best(fs, t)->0 by {
            if i < n {
                assert(rest[i] == fs[i]);
            }
        }
        if token_best(fs, t) is Some {
            if token_best(rest, t) is Some && (field_score(fs[n], t) is None || token_best(rest, t)->0 >= field_score(fs[n], t)->0) {
                let i = choose|i: int| 0 <= i < rest.len() && #[trigger] field_score(rest[i], t) == token_best(rest, t);
                assert(rest[i] == fs[i]);
            } else {
                assert(field_score(fs[n], t) == token_best(fs, t));
            }
        }
        if token_best(fs, t) is None {
            assert forall|i: int| 0 <= i < fs.len() implies (#[trigger] field_score(fs[i], t)) is None by {
                if i < n {
                    assert(rest[i] == fs[i]);
                }
            }
        }
    }
}

} // verus!
