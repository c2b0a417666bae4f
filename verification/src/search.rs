//! Ranking of open windows against a search query.
//!
//! A query is split into lowercase tokens; every token must match the
//! application name or the window title of a window, and the window's score
//! is the sum of each token's best match score.

use crate::text::{
    alphanumeric, char_lowercase, chars_of, has_infix, has_prefix, is_alphanumeric, is_lowercase,
    is_uppercase, lower_chars, lowercase_chars, lowercase_letter, lowercase_of, matches_at,
    occurs_at, same_chars, first_from, lemma_first_from_bounds, lemma_first_from_found, lemma_first_from_absent, split_words, starts_with, uppercase_letter, words, char_vecs, contains,
};
use vstd::prelude::*;

verus! {

pub const MAX_FIELD_CHARS: usize = 512;
pub const MAX_QUERY_CHARS: usize = 128;

/// Fields longer than this many lowercase characters would make scores leave
/// the range of `i32`.
pub const FIELD_BOUND: usize = 0x100000;

/// A window as listed by the switcher.
#[derive(Clone, Debug, PartialEq, Eq)]
pub struct WindowInfo {
    pub id: u64,
    pub pid: i32,
    pub app: String,
    pub title: String,
    pub minimized: bool,
}

/// The part of a text that is searched: its first 512 characters.
pub open spec fn field_text(text: Seq<char>) -> Seq<char> {
    if text.len() > MAX_FIELD_CHARS {
        text.take(MAX_FIELD_CHARS as int)
    } else {
        text
    }
}

/// A word starts at an alphanumeric character that follows a
/// non-alphanumeric one, or an uppercase letter that follows a lowercase one.
pub open spec fn word_start_at(t: Seq<char>, i: int) -> bool {
    alphanumeric(t[i]) && (i == 0 || !alphanumeric(t[i - 1]) || (lowercase_letter(t[i - 1])
        && uppercase_letter(t[i])))
}

/// For each lowercase character of `t`, whether it is the first character of
/// the lowercase mapping of a word-start character.
pub open spec fn field_word_starts(t: Seq<char>) -> Seq<bool>
    decreases t.len(),
{
    if t.len() == 0 {
        seq![]
    } else {
        field_word_starts(t.drop_last()) + Seq::new(
            lowercase_of(t.last()).len(),
            |k: int| k == 0 && word_start_at(t, t.len() - 1),
        )
    }
}

/// The lowercase mappings of the word-start characters of `t`.
pub open spec fn field_initials(t: Seq<char>) -> Seq<char>
    decreases t.len(),
{
    if t.len() == 0 {
        seq![]
    } else {
        field_initials(t.drop_last()) + if word_start_at(t, t.len() - 1) {
            lowercase_of(t.last())
        } else {
            seq![]
        }
    }
}

/// A searched text, lowercased, with its word starts and initials.
pub struct FieldModel {
    pub chars: Seq<char>,
    pub word_starts: Seq<bool>,
    pub initials: Seq<char>,
}

pub open spec fn field_model(text: Seq<char>) -> FieldModel {
    let t = field_text(text);
    FieldModel {
        chars: lower_chars(t),
        word_starts: field_word_starts(t),
        initials: field_initials(t),
    }
}

pub open spec fn opt_max(a: Option<int>, b: Option<int>) -> Option<int> {
    match (a, b) {
        (None, _) => b,
        (_, None) => a,
        (Some(x), Some(y)) => Some(
            if x >= y {
                x
            } else {
                y
            },
        ),
    }
}

pub open spec fn opt_int(a: Option<i32>) -> Option<int> {
    match a {
        Some(x) => Some(x as int),
        None => None,
    }
}

/// The score of the token occurring at index `i`: better at a word start and
/// closer to the beginning.
pub open spec fn substring_score(word_starts: Seq<bool>, i: int) -> int {
    8000 + (if word_starts[i] {
        1000int
    } else {
        0int
    }) - i
}

/// The best substring score over occurrences starting before `n`.
pub open spec fn best_substring(f: FieldModel, token: Seq<char>, n: int) -> Option<int>
    decreases n,
{
    if n <= 0 {
        None
    } else {
        let prev = best_substring(f, token, n - 1);
        if occurs_at(f.chars, token, n - 1) {
            opt_max(prev, Some(substring_score(f.word_starts, n - 1)))
        } else {
            prev
        }
    }
}

/// Where the leftmost (greedy) match of `token` as a subsequence of `s`
/// places the token's character `k`, or the length of `s` when it fails.
pub open spec fn greedy_end(s: Seq<char>, token: Seq<char>, k: int) -> int
    decreases k,
{
    if k <= 0 {
        first_from(s, token[0], 0)
    } else {
        let p = greedy_end(s, token, k - 1);
        if p >= s.len() {
            s.len() as int
        } else {
            first_from(s, token[k], p + 1)
        }
    }
}

/// The score of the token as a scattered subsequence: lower for gaps between
/// the matched characters and for a late first character.
pub open spec fn subsequence_score(s: Seq<char>, token: Seq<char>) -> Option<int> {
    let end = greedy_end(s, token, token.len() - 1);
    if end < s.len() {
        let start = greedy_end(s, token, 0);
        Some(2000 - 2 * (end + 1 - start - token.len()) - start)
    } else {
        None
    }
}

/// How well a token matches a field: exactly, as a prefix, as a substring, as
/// a prefix of the initials, or as a scattered subsequence.
pub open spec fn field_score(f: FieldModel, token: Seq<char>) -> Option<int> {
    if f.chars == token {
        Some(12000)
    } else if starts_with(f.chars, token) {
        Some(10000)
    } else {
        let best = best_substring(f, token, f.chars.len() as int);
        let best = if starts_with(f.initials, token) {
            opt_max(best, Some(9500))
        } else {
            best
        };
        match subsequence_score(f.chars, token) {
            Some(x) => opt_max(best, Some(x)),
            None => best,
        }
    }
}

pub proof fn lemma_greedy_end_fails(s: Seq<char>, token: Seq<char>, k: int, m: int)
    requires
        0 <= k <= m,
        greedy_end(s, token, k) >= s.len(),
    ensures
        greedy_end(s, token, m) >= s.len(),
    decreases m - k,
{
    if k < m {
        lemma_greedy_end_fails(s, token, k, m - 1);
    }
}

pub proof fn lemma_greedy_end_increasing(s: Seq<char>, token: Seq<char>, k: int)
    requires
        0 <= k,
    ensures
        0 <= greedy_end(s, token, k) <= s.len(),
        k > 0 && greedy_end(s, token, k) < s.len() ==> greedy_end(s, token, k - 1) < greedy_end(
            s,
            token,
            k,
        ),
        greedy_end(s, token, k) < s.len() ==> greedy_end(s, token, 0) + k <= greedy_end(
            s,
            token,
            k,
        ),
    decreases k,
{
    if k == 0 {
        lemma_first_from_bounds(s, token[0], 0);
    } else {
        lemma_greedy_end_increasing(s, token, k - 1);
        let p = greedy_end(s, token, k - 1);
        if p < s.len() {
            lemma_first_from_bounds(s, token[k], p + 1);
        }
    }
}

/// A searched text, prepared for matching.
pub struct Field {
    chars: Vec<char>,
    word_starts: Vec<bool>,
    initials: Vec<char>,
}

impl View for Field {
    type V = FieldModel;

    closed spec fn view(&self) -> FieldModel {
        FieldModel { chars: self.chars@, word_starts: self.word_starts@, initials: self.initials@ }
    }
}

proof fn lemma_field_lengths(t: Seq<char>)
    ensures
        field_word_starts(t).len() == lower_chars(t).len(),
    decreases t.len(),
{
    if t.len() > 0 {
        lemma_field_lengths(t.drop_last());
    }
}

impl Field {
    #[verifier::type_invariant]
    closed spec fn aligned(self) -> bool {
        self.word_starts@.len() == self.chars@.len()
    }

    pub fn new(text: &str) -> (field: Self)
        ensures
            field@ == field_model(text@),
    {
        let all = chars_of(text);
        let count = if all.len() > MAX_FIELD_CHARS {
            MAX_FIELD_CHARS
        } else {
            all.len()
        };
        let ghost t = field_text(text@);
        assert(t == all@.take(count as int));
        let mut chars: Vec<char> = Vec::new();
        let mut word_starts: Vec<bool> = Vec::new();
        let mut initials: Vec<char> = Vec::new();
        let mut i: usize = 0;
        while i < count
            invariant
                count <= all.len(),
                t == all@.take(count as int),
                i <= count,
                chars@ == lower_chars(t.take(i as int)),
                word_starts@ == field_word_starts(t.take(i as int)),
                initials@ == field_initials(t.take(i as int)),
            decreases count - i,
        {
            let ch = all[i];
            let word_start = is_alphanumeric(ch) && (i == 0 || !is_alphanumeric(all[i - 1]) || (
            is_lowercase(all[i - 1]) && is_uppercase(ch)));
            let ghost ti = t.take(i + 1);
            assert(ti.drop_last() == t.take(i as int));
            assert(ti.last() == ch);
            assert(word_start == word_start_at(ti, i as int));
            let lower = char_lowercase(ch);
            let ghost chars0 = chars@;
            let ghost starts0 = word_starts@;
            let ghost initials0 = initials@;
            let mut k: usize = 0;
            while k < lower.len()
                invariant
                    k <= lower.len(),
                    lower@ == lowercase_of(ch),
                    chars@ == chars0 + lower@.take(k as int),
                    word_starts@ == starts0 + Seq::new(
                        k as nat,
                        |m: int| m == 0 && word_start_at(ti, i as int),
                    ),
                    initials@ == initials0 + if word_start_at(ti, i as int) {
                        lower@.take(k as int)
                    } else {
                        seq![]
                    },
                    word_start == word_start_at(ti, i as int),
                decreases lower.len() - k,
            {
                chars.push(lower[k]);
                word_starts.push(word_start && k == 0);
                if word_start {
                    initials.push(lower[k]);
                }
                k += 1;
                assert(lower@.take(k as int) == lower@.take(k - 1).push(lower@[k - 1]));
                assert(Seq::new(k as nat, |m: int| m == 0 && word_start_at(ti, i as int)) == Seq::new(
                    (k - 1) as nat,
                    |m: int| m == 0 && word_start_at(ti, i as int),
                ).push(k - 1 == 0 && word_start_at(ti, i as int)));
            }
            assert(lower@.take(lower.len() as int) == lower@);
            i += 1;
        }
        assert(t.take(count as int) == t);
        proof {
            lemma_field_lengths(t);
        }
        Field { chars, word_starts, initials }
    }

    /// The best match score of a token in this field.
    pub fn score(&self, token: &[char]) -> (score: Option<i32>)
        requires
            self@.chars.len() <= FIELD_BOUND,
        ensures
            opt_int(score) == field_score(self@, token@),
            score matches Some(v) ==> 2000 - 3 * FIELD_BOUND <= v <= 12000,
    {
        proof {
            use_type_invariant(self);
        }
        if same_chars(&self.chars, token) {
            return Some(12000);
        }
        if has_prefix(&self.chars, token) {
            return Some(10000);
        }
        assert(token@.len() > 0) by {
            if token@.len() == 0 {
                assert(self@.chars.subrange(0, 0) =~= token@);
            }
        }
        let mut best: Option<i32> = None;
        let mut i: usize = 0;
        while i < self.chars.len()
            invariant
                i <= self.chars.len() <= FIELD_BOUND,
                self@.word_starts.len() == self@.chars.len(),
                opt_int(best) == best_substring(self@, token@, i as int),
                best matches Some(b) ==> 8000 - FIELD_BOUND <= b <= 9000,
            decreases self.chars.len() - i,
        {
            if matches_at(&self.chars, token, i) {
                let value: i32 = 8000 + (if self.word_starts[i] {
                    1000
                } else {
                    0
                }) - i as i32;
                best = match best {
                    Some(b) => Some(
                        if b >= value {
                            b
                        } else {
                            value
                        },
                    ),
                    None => Some(value),
                };
            }
            i += 1;
        }
        let ghost best_spec = if starts_with(self@.initials, token@) {
            opt_max(best_substring(self@, token@, self@.chars.len() as int), Some(9500))
        } else {
            best_substring(self@, token@, self@.chars.len() as int)
        };
        if has_prefix(&self.initials, token) {
            best = match best {
                Some(b) => Some(
                    if b >= 9500 {
                        b
                    } else {
                        9500
                    },
                ),
                None => Some(9500),
            };
        }
        let ghost s = self@.chars;
        let ghost tok = token@;
        let mut next: usize = 0;
        let mut first: usize = 0;
        let mut index: usize = 0;
        while index < self.chars.len()
            invariant
                s == self@.chars,
                tok == token@,
                s.len() <= FIELD_BOUND,
                tok.len() > 0,
                index <= s.len(),
                next < tok.len(),
                next > 0 ==> first == greedy_end(s, tok, 0),
                next > 0 ==> 0 <= greedy_end(s, tok, next - 1),
                opt_int(best) == best_spec,
                s != tok,
                !starts_with(s, tok),
                field_score(self@, token@) == match subsequence_score(s, tok) {
                    Some(x) => opt_max(best_spec, Some(x)),
                    None => best_spec,
                },
                next > 0 ==> greedy_end(s, tok, next - 1) < index,
                next > 0 ==> greedy_end(s, tok, next - 1) < s.len(),
                forall|k: int|
                    (if next == 0 {
                        0
                    } else {
                        greedy_end(s, tok, next - 1) + 1
                    }) <= k < index ==> s[k] != tok[next as int],
                best matches Some(b) ==> 8000 - FIELD_BOUND <= b <= 9500,
            decreases s.len() - index,
        {
            let ch = self.chars[index];
            if ch == token[next] {
                let ghost from: int = if next == 0 {
                    0
                } else {
                    greedy_end(s, tok, next - 1) + 1
                };
                proof {
                    lemma_first_from_found(s, tok[next as int], from, index as int);
                    if next > 0 {
                        lemma_greedy_end_increasing(s, tok, next - 1);
                    }
                }
                assert(greedy_end(s, tok, next as int) == index);
                if next == 0 {
                    first = index;
                }
                next += 1;
                if next == token.len() {
                    proof {
                        lemma_greedy_end_increasing(s, tok, (next - 1) as int);
                    }
                    assert(greedy_end(s, tok, 0) + (tok.len() - 1) <= index);
                    let gaps = index + 1 - first - token.len();
                    let value: i32 = 2000 - gaps as i32 * 2 - first as i32;
                    assert(subsequence_score(s, tok) == Some(value as int));
                    return match best {
                        Some(b) => Some(
                            if b >= value {
                                b
                            } else {
                                value
                            },
                        ),
                        None => Some(value),
                    };
                }
            }
            index += 1;
        }
        proof {
            let from: int = if next == 0 {
                0
            } else {
                greedy_end(s, tok, next - 1) + 1
            };
            lemma_first_from_absent(s, tok[next as int], from);
            assert(greedy_end(s, tok, next as int) >= s.len());
            lemma_greedy_end_fails(s, tok, next as int, tok.len() - 1);
        }
        best
    }
}


/// The lowercase tokens of a query: its whitespace-separated words.
pub open spec fn query_tokens(q: Seq<char>) -> Seq<Seq<char>> {
    words(q).map_values(|w: Seq<char>| lower_chars(w))
}

/// The number of characters of all tokens together.
pub open spec fn total_len(t: Seq<Seq<char>>) -> int
    decreases t.len(),
{
    if t.len() == 0 {
        0
    } else {
        total_len(t.drop_last()) + t.last().len()
    }
}

/// A query is accepted when its tokens have at most 128 characters together.
pub open spec fn parse_query(q: Seq<char>) -> Option<Seq<Seq<char>>> {
    let t = query_tokens(q);
    if total_len(t) > MAX_QUERY_CHARS {
        None
    } else {
        Some(t)
    }
}

/// The best score of a token over several fields.
pub open spec fn token_best(fs: Seq<FieldModel>, t: Seq<char>) -> Option<int>
    decreases fs.len(),
{
    if fs.len() == 0 {
        None
    } else {
        opt_max(token_best(fs.drop_last(), t), field_score(fs.last(), t))
    }
}

/// The sum of the tokens' best scores, or `None` when some token matches no
/// field.
pub open spec fn query_score(tokens: Seq<Seq<char>>, fs: Seq<FieldModel>) -> Option<int>
    decreases tokens.len(),
{
    if tokens.len() == 0 {
        Some(0)
    } else {
        match query_score(tokens.drop_last(), fs) {
            Some(a) => match token_best(fs, tokens.last()) {
                Some(b) => Some(a + b),
                None => None,
            },
            None => None,
        }
    }
}


proof fn lemma_total_len_prefix(t: Seq<Seq<char>>, i: int)
    requires
        0 <= i <= t.len(),
    ensures
        total_len(t.take(i)) <= total_len(t),
    decreases t.len() - i,
{
    if i < t.len() {
        lemma_total_len_prefix(t, i + 1);
        assert(t.take(i + 1).drop_last() == t.take(i));
    } else {
        assert(t.take(i) == t);
    }
}

proof fn lemma_total_len_counts(t: Seq<Seq<char>>)
    requires
        forall|i: int| 0 <= i < t.len() ==> #[trigger] t[i].len() > 0,
    ensures
        total_len(t) >= t.len(),
    decreases t.len(),
{
    if t.len() > 0 {
        lemma_total_len_counts(t.drop_last());
    }
}

proof fn lemma_query_score_stays_none(tokens: Seq<Seq<char>>, fs: Seq<FieldModel>, j: int, k: int)
    requires
        0 <= j <= k <= tokens.len(),
        query_score(tokens.take(j), fs) is None,
    ensures
        query_score(tokens.take(k), fs) is None,
    decreases k - j,
{
    if j < k {
        lemma_query_score_stays_none(tokens, fs, j, k - 1);
        assert(tokens.take(k).drop_last() == tokens.take(k - 1));
    }
}

pub open spec fn field_models(fields: Seq<&str>) -> Seq<FieldModel> {
    fields.map_values(|f: &str| field_model(f@))
}

/// The words of `text`, lowercased, are exactly the tokens.
pub open spec fn exact_match(tokens: Seq<Seq<char>>, text: Seq<char>) -> bool {
    let w = words(text);
    w.len() == tokens.len() && forall|k: int| 0 <= k < w.len() ==> lower_chars(#[trigger] w[k]) == tokens[k]
}

/// A token occurs in the field or starts its initials.
pub open spec fn token_in_field(f: FieldModel, token: Seq<char>) -> bool {
    contains(f.chars, token) || starts_with(f.initials, token)
}

pub open spec fn app_priority(tokens: Seq<Seq<char>>, name: Seq<char>) -> u8 {
    if exact_match(tokens, name) {
        0
    } else if forall|k: int| 0 <= k < tokens.len() ==> token_in_field(field_model(name), #[trigger] tokens[k]) {
        1
    } else {
        2
    }
}

/// A parsed search query.
pub struct Query {
    tokens: Vec<Vec<char>>,
}

impl View for Query {
    type V = Seq<Seq<char>>;

    closed spec fn view(&self) -> Seq<Seq<char>> {
        char_vecs(self.tokens@)
    }
}

impl Query {
    #[verifier::type_invariant]
    closed spec fn tokens_are_bounded(self) -> bool {
        &&& forall|i: int| 0 <= i < self.tokens@.len() ==> #[trigger] self.tokens@[i]@.len() > 0
        &&& total_len(char_vecs(self.tokens@)) <= MAX_QUERY_CHARS
    }

    pub fn new(query: &str) -> (parsed: Option<Self>)
        ensures
            match parse_query(query@) {
                Some(t) => parsed matches Some(q) && q@ == t,
                None => parsed is None,
            },
    {
        let chars = chars_of(query);
        let ws = split_words(&chars);
        let ghost qt = query_tokens(query@);
        proof {
            crate::text::lemma_words_from_nonempty(query@, seq![]);
            assert forall|k: int| 0 <= k < ws@.len() implies #[trigger] ws@[k]@.len() > 0 by {
                assert(char_vecs(ws@)[k] == ws@[k]@);
            }
        }
        let mut tokens: Vec<Vec<char>> = Vec::new();
        let mut total: usize = 0;
        let mut i: usize = 0;
        while i < ws.len()
            invariant
                char_vecs(ws@) == words(query@),
                qt == query_tokens(query@),
                qt.len() == ws@.len(),
                forall|k: int| 0 <= k < ws@.len() ==> #[trigger] ws@[k]@.len() > 0,
                i <= ws.len(),
                char_vecs(tokens@) == qt.take(i as int),
                forall|k: int| 0 <= k < tokens@.len() ==> #[trigger] tokens@[k]@.len() > 0,
                total == total_len(char_vecs(tokens@)),
                total <= MAX_QUERY_CHARS,
            decreases ws.len() - i,
        {
            assert(ws@[i as int]@ == words(query@)[i as int]);
            let token = lowercase_chars(&ws[i]);
            assert(qt[i as int] == token@);
            assert(qt.take(i + 1).drop_last() == qt.take(i as int));
            assert(qt.take(i + 1).last() == token@);
            if token.len() > MAX_QUERY_CHARS - total {
                proof {
                    lemma_total_len_prefix(qt, i + 1);
                }
                return None;
            }
            total = total + token.len();
            let ghost before = tokens@;
            tokens.push(token);
            assert(char_vecs(tokens@) == char_vecs(before).push(token@));
            assert(char_vecs(tokens@).drop_last() == char_vecs(before));
            assert(total_len(char_vecs(tokens@)) == total_len(char_vecs(before)) + token@.len());
            i += 1;
        }
        assert(qt.take(ws.len() as int) == qt);
        Some(Query { tokens })
    }

    /// The sum of each token's best score over the fields, or `None` when
    /// some token matches none of them.
    pub fn score(&self, fields: &[&str]) -> (score: Option<i32>)
        requires
            forall|k: int| 0 <= k < fields@.len() ==> #[trigger] field_model(fields@[k]@).chars.len()
                <= FIELD_BOUND,
        ensures
            opt_int(score) == query_score(self@, field_models(fields@)),
            score matches Some(v) ==> v <= 1536000,
    {
        proof {
            use_type_invariant(self);
            lemma_total_len_counts(self@);
        }
        let ghost fs = field_models(fields@);
        let mut prepared: Vec<Field> = Vec::new();
        let mut k: usize = 0;
        while k < fields.len()
            invariant
                k <= fields.len(),
                fs == field_models(fields@),
                prepared@.len() == k,
                forall|m: int| 0 <= m < k ==> #[trigger] prepared@[m]@ == fs[m],
            decreases fields.len() - k,
        {
            prepared.push(Field::new(fields[k]));
            k += 1;
        }
        let mut total: i32 = 0;
        let mut i: usize = 0;
        while i < self.tokens.len()
            invariant
                i <= self.tokens@.len() <= MAX_QUERY_CHARS,
                self@.len() == self.tokens@.len(),
                forall|m: int| 0 <= m < self.tokens@.len() ==> #[trigger] self.tokens@[m]@.len() > 0,
                fs == field_models(fields@),
                prepared@.len() == fs.len(),
                forall|m: int| 0 <= m < fs.len() ==> #[trigger] prepared@[m]@ == fs[m],
                forall|m: int| 0 <= m < fs.len() ==> (#[trigger] fs[m]).chars.len() <= FIELD_BOUND,
                query_score(self@.take(i as int), fs) == Some(total as int),
                -3145728 * (i as int) <= total <= 12000 * (i as int),
            decreases self.tokens.len() - i,
        {
            let token = &self.tokens[i];
            assert(token@ == self@[i as int]);
            let mut best: Option<i32> = None;
            let mut k: usize = 0;
            while k < prepared.len()
                invariant
                    k <= prepared@.len() == fs.len(),
                    fs.len() == fields@.len(),
                    fs == field_models(fields@),
                    token@.len() > 0,
                    forall|m: int| 0 <= m < fs.len() ==> #[trigger] prepared@[m]@ == fs[m],
                    forall|m: int| 0 <= m < fs.len() ==> (#[trigger] fs[m]).chars.len() <= FIELD_BOUND,
                    opt_int(best) == token_best(fs.take(k as int), token@),
                    best matches Some(b) ==> 2000 - 3 * FIELD_BOUND <= b <= 12000,
                decreases prepared.len() - k,
            {
                assert(fs.take(k + 1).drop_last() == fs.take(k as int));
                let found = prepared[k].score(token);
                best = match (best, found) {
                    (Some(b), Some(f)) => Some(
                        if b >= f {
                            b
                        } else {
                            f
                        },
                    ),
                    (None, f) => f,
                    (b, None) => b,
                };
                k += 1;
            }
            assert(fs.take(fs.len() as int) == fs);
            assert(self@.take(i + 1).drop_last() == self@.take(i as int));
            match best {
                Some(b) => {
                    assert(-3145728 * (i as int) - 3145728 == -3145728 * (i + 1));
                    total = total + b;
                },
                None => {
                    proof {
                        lemma_query_score_stays_none(self@, fs, i + 1, self@.len() as int);
                        assert(self@.take(self@.len() as int) == self@);
                    }
                    return None;
                },
            }
            i += 1;
        }
        assert(self@.take(self@.len() as int) == self@);
        Some(total)
    }

    /// Whether the words of `text` are exactly the query's tokens, ignoring case.
    pub fn matches_exactly(&self, text: &str) -> (exact: bool)
        ensures
            exact == exact_match(self@, text@),
    {
        let chars = chars_of(text);
        let ws = split_words(&chars);
        if ws.len() != self.tokens.len() {
            return false;
        }
        let mut i: usize = 0;
        while i < ws.len()
            invariant
                char_vecs(ws@) == words(text@),
                ws@.len() == self@.len() == self.tokens@.len(),
                i <= ws.len(),
                forall|k: int| 0 <= k < i ==> lower_chars(#[trigger] words(text@)[k]) == self@[k],
            decreases ws.len() - i,
        {
            assert(ws@[i as int]@ == words(text@)[i as int]);
            assert(self.tokens@[i as int]@ == self@[i as int]);
            let lower = lowercase_chars(&ws[i]);
            if !same_chars(&lower, &self.tokens[i]) {
                return false;
            }
            i += 1;
        }
        true
    }

    /// How closely an application name matches: 0 when its words are exactly
    /// the query, 1 when every token occurs in it or starts its initials, 2
    /// otherwise.
    pub fn app_name_priority(&self, name: &str) -> (priority: u8)
        ensures
            priority == app_priority(self@, name@),
    {
        proof {
            use_type_invariant(self);
        }
        if self.matches_exactly(name) {
            return 0;
        }
        let field = Field::new(name);
        let mut i: usize = 0;
        while i < self.tokens.len()
            invariant
                i <= self.tokens@.len() == self@.len(),
                field@ == field_model(name@),
                !exact_match(self@, name@),
                forall|k: int| 0 <= k < i ==> token_in_field(field@, #[trigger] self@[k]),
            decreases self.tokens.len() - i,
        {
            assert(self.tokens@[i as int]@ == self@[i as int]);
            if !(has_infix(&field.chars, &self.tokens[i]) || has_prefix(&field.initials, &self.tokens[i])) {
                assert(!token_in_field(field_model(name@), self@[i as int]));
                assert(!exact_match(self@, name@));
                return 2;
            }
            i += 1;
        }
        1
    }

    pub fn is_empty(&self) -> (empty: bool)
        ensures
            empty == (self@.len() == 0),
    {
        self.tokens.len() == 0
    }
}


/// A window's score for the query tokens: the tokens' best matches over its
/// application name and title, plus 300 for the preferred window.
pub open spec fn window_score(tokens: Seq<Seq<char>>, w: WindowInfo, preferred: Option<u64>) -> Option<int> {
    match query_score(tokens, seq![field_model(w.app@), field_model(w.title@)]) {
        Some(s) => Some(
            if preferred == Some(w.id) {
                s + 300
            } else {
                s
            },
        ),
        None => None,
    }
}

pub open spec fn score_of(tokens: Seq<Seq<char>>, w: WindowInfo, preferred: Option<u64>) -> int {
    match window_score(tokens, w, preferred) {
        Some(s) => s,
        None => 0,
    }
}

/// Window `a` is listed before window `b`: it scores higher, or scores the
/// same and comes first.
pub open spec fn listed_before(
    tokens: Seq<Seq<char>>,
    ws: Seq<WindowInfo>,
    preferred: Option<u64>,
    a: int,
    b: int,
) -> bool {
    score_of(tokens, ws[a], preferred) > score_of(tokens, ws[b], preferred) || (score_of(
        tokens,
        ws[a],
        preferred,
    ) == score_of(tokens, ws[b], preferred) && a < b)
}

/// `r` lists exactly the matching windows, best first.
pub open spec fn is_ranking(
    r: Seq<usize>,
    ws: Seq<WindowInfo>,
    tokens: Seq<Seq<char>>,
    preferred: Option<u64>,
) -> bool {
    &&& forall|k: int| 0 <= k < r.len() ==> #[trigger] r[k] < ws.len() && window_score(tokens, ws[r[k] as int], preferred) is Some
    &&& forall|i: int| 0 <= i < ws.len() && (window_score(tokens, #[trigger] ws[i], preferred) is Some) ==> r.contains(i as usize)
    &&& forall|a: int, b: int| 0 <= a < b < r.len() ==> listed_before(tokens, ws, preferred, #[trigger] r[a] as int, #[trigger] r[b] as int)
}

/// What `rank` returns: nothing for an over-long query, every window in
/// order for an empty one, and otherwise the ranking of the matches.
pub open spec fn rank_result(r: Seq<usize>, ws: Seq<WindowInfo>, query: Seq<char>, preferred: Option<u64>) -> bool {
    match parse_query(query) {
        None => r.len() == 0,
        Some(tokens) => if tokens.len() == 0 {
            r == Seq::new(ws.len(), |i: int| i as usize)
        } else {
            is_ranking(r, ws, tokens, preferred)
        },
    }
}

/// The window's searched fields stay within the bound that keeps scores in range.
pub open spec fn window_bounded(w: WindowInfo) -> bool {
    field_model(w.app@).chars.len() <= FIELD_BOUND && field_model(w.title@).chars.len()
        <= FIELD_BOUND
}

pub open spec fn pair_before(x: (usize, i32), y: (usize, i32)) -> bool {
    x.1 > y.1 || (x.1 == y.1 && x.0 < y.0)
}

impl Field {
    pub fn len(&self) -> (n: usize)
        ensures
            n == self@.chars.len(),
    {
        self.chars.len()
    }
}

/// Inserts a newly scored window into a list kept in listing order; the new
/// window comes after every listed one.
fn insert_ranked(sorted: &mut Vec<(usize, i32)>, index: usize, value: i32)
    requires
        forall|k: int| 0 <= k < old(sorted)@.len() ==> (#[trigger] old(sorted)@[k]).0 < index,
        forall|a: int, b: int| 0 <= a < b < old(sorted)@.len() ==> pair_before(#[trigger] old(sorted)@[a], #[trigger] old(sorted)@[b]),
    ensures
        exists|p: int| 0 <= p <= old(sorted)@.len() && final(sorted)@ == old(sorted)@.insert(p, (index, value)),
        forall|a: int, b: int| 0 <= a < b < final(sorted)@.len() ==> pair_before(#[trigger] final(sorted)@[a], #[trigger] final(sorted)@[b]),
{
    let ghost before = sorted@;
    let mut p: usize = 0;
    while p < sorted.len() && sorted[p].1 >= value
        invariant
            sorted@ == before,
            p <= sorted@.len(),
            forall|k: int| 0 <= k < p ==> (#[trigger] sorted@[k]).1 >= value,
        decreases sorted.len() - p,
    {
        p += 1;
    }
    proof {
        assert forall|k: int| p <= k < before.len() implies (#[trigger] before[k]).1 < value by {
            if k > p {
                assert(pair_before(before[p as int], before[k]));
            }
        }
    }
    sorted.insert(p, (index, value));
    let ghost after = before.insert(p as int, (index, value));
    assert(sorted@ == after);
    assert forall|a: int, b: int| 0 <= a < b < after.len() implies pair_before(#[trigger] after[a], #[trigger] after[b]) by {
        if a < p && b < p {
            assert(pair_before(before[a], before[b]));
        } else if a < p && b == p {
        } else if a < p && b > p {
            assert(pair_before(before[a], before[b - 1]));
        } else if a == p {
        } else {
            assert(pair_before(before[a - 1], before[b - 1]));
        }
    }
}

/// The windows matching `query`, best first. An empty query lists every
/// window in order; an over-long query lists none.
pub fn rank(windows: &[WindowInfo], query: &str, preferred: Option<u64>) -> (ranked: Vec<usize>)
    requires
        forall|i: int| 0 <= i < windows@.len() ==> window_bounded(#[trigger] windows@[i]),
    ensures
        rank_result(ranked@, windows@, query@, preferred),
{
    let parsed = Query::new(query);
    let query = match parsed {
        Some(q) => q,
        None => return Vec::new(),
    };
    let ghost tokens = query@;
    let ghost ws = windows@;
    if query.is_empty() {
        let mut all: Vec<usize> = Vec::new();
        let mut i: usize = 0;
        while i < windows.len()
            invariant
                i <= windows.len(),
                all@ == Seq::new(i as nat, |k: int| k as usize),
            decreases windows.len() - i,
        {
            all.push(i);
            i += 1;
        }
        return all;
    }
    let mut sorted: Vec<(usize, i32)> = Vec::new();
    let mut i: usize = 0;
    while i < windows.len()
        invariant
            i <= windows.len(),
            ws == windows@,
            tokens == query@,
            tokens.len() > 0,
            forall|j: int| 0 <= j < ws.len() ==> window_bounded(#[trigger] ws[j]),
            forall|k: int| 0 <= k < sorted@.len() ==> (#[trigger] sorted@[k]).0 < i && window_score(tokens, ws[sorted@[k].0 as int], preferred) == Some(sorted@[k].1 as int),
            forall|j: int| 0 <= j < i && (window_score(tokens, #[trigger] ws[j], preferred) is Some) ==> exists|k: int| 0 <= k < sorted@.len() && sorted@[k].0 == j,
            forall|a: int, b: int| 0 <= a < b < sorted@.len() ==> pair_before(#[trigger] sorted@[a], #[trigger] sorted@[b]),
        decreases windows.len() - i,
    {
        let window = &windows[i];
        let fields: [&str; 2] = [window.app.as_str(), window.title.as_str()];
        assert(field_models(fields@) == seq![field_model(window.app@), field_model(window.title@)]);
        let found = query.score(&fields);
        match found {
            None => {
                assert(window_score(tokens, ws[i as int], preferred) is None);
            },
            Some(base) => {
                let value: i32 = if preferred == Some(window.id) {
                    base + 300
                } else {
                    base
                };
                assert(window_score(tokens, ws[i as int], preferred) == Some(value as int));
                let ghost before = sorted@;
                insert_ranked(&mut sorted, i, value);
                let ghost p = choose|p: int| 0 <= p <= before.len() && sorted@ == before.insert(p, (i, value));
                assert(sorted@ == before.insert(p, (i, value)));
                assert forall|k: int| 0 <= k < sorted@.len() implies (#[trigger] sorted@[k]).0 < i + 1 && window_score(tokens, ws[sorted@[k].0 as int], preferred) == Some(sorted@[k].1 as int) by {
                    if k < p {
                        assert(sorted@[k] == before[k]);
                    } else if k > p {
                        assert(sorted@[k] == before[k - 1]);
                    }
                }
                assert forall|j: int| 0 <= j < i + 1 && (window_score(tokens, #[trigger] ws[j], preferred) is Some) implies exists|k: int| 0 <= k < sorted@.len() && sorted@[k].0 == j by {
                    if j == i {
                        assert(sorted@[p].0 == j);
                    } else {
                        let k = choose|k: int| 0 <= k < before.len() && before[k].0 == j;
                        if k < p {
                            assert(sorted@[k].0 == j);
                        } else {
                            assert(sorted@[k + 1].0 == j);
                        }
                    }
                }
            },
        }
        i += 1;
    }
    let mut ranked: Vec<usize> = Vec::new();
    let mut k: usize = 0;
    while k < sorted.len()
        invariant
            k <= sorted@.len(),
            ranked@ == sorted@.take(k as int).map_values(|e: (usize, i32)| e.0),
        decreases sorted.len() - k,
    {
        ranked.push(sorted[k].0);
        k += 1;
        assert(sorted@.take(k as int).map_values(|e: (usize, i32)| e.0) == sorted@.take(k - 1).map_values(|e: (usize, i32)| e.0).push(sorted@[k - 1].0));
    }
    assert(sorted@.take(sorted@.len() as int) == sorted@);
    assert forall|j: int| 0 <= j < ws.len() && (window_score(tokens, #[trigger] ws[j], preferred) is Some) implies ranked@.contains(j as usize) by {
        let k = choose|k: int| 0 <= k < sorted@.len() && sorted@[k].0 == j;
        assert(ranked@[k] == j as usize);
    }
    ranked
}

/// `rank`, for windows whose fields may exceed the score bound: `None` when
/// some window's application name or title is too long to score.
pub fn try_rank(windows: &[WindowInfo], query: &str, preferred: Option<u64>) -> (ranked: Option<Vec<usize>>)
    ensures
        match ranked {
            Some(r) => rank_result(r@, windows@, query@, preferred),
            None => exists|i: int| 0 <= i < windows@.len() && !window_bounded(#[trigger] windows@[i]),
        },
{
    let mut i: usize = 0;
    while i < windows.len()
        invariant
            i <= windows.len(),
            forall|j: int| 0 <= j < i ==> window_bounded(#[trigger] windows@[j]),
        decreases windows.len() - i,
    {
        let app = Field::new(windows[i].app.as_str());
        let title = Field::new(windows[i].title.as_str());
        if app.len() > FIELD_BOUND || title.len() > FIELD_BOUND {
            assert(!window_bounded(windows@[i as int]));
            return None;
        }
        i += 1;
    }
    Some(rank(windows, query, preferred))
}

} // verus!
