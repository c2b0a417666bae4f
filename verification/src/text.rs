//! Character and string primitives: Unicode classes, case mapping, trimming
//! and splitting on whitespace, stated over sequences of characters.

use vstd::prelude::*;

verus! {

/// The Unicode `White_Space` property.
pub open spec fn whitespace(c: char) -> bool {
    let v = c as u32;
    (0x09 <= v <= 0x0D) || v == 0x20 || v == 0x85 || v == 0xA0 || v == 0x1680 || (0x2000 <= v
        <= 0x200A) || v == 0x2028 || v == 0x2029 || v == 0x202F || v == 0x205F || v == 0x3000
}

/// The Unicode general category `Cc` (control characters).
pub open spec fn control(c: char) -> bool {
    let v = c as u32;
    v <= 0x1F || (0x7F <= v <= 0x9F)
}

pub fn is_whitespace(c: char) -> (r: bool)
    ensures
        r == whitespace(c),
{
    let v = c as u32;
    (0x09 <= v && v <= 0x0D) || v == 0x20 || v == 0x85 || v == 0xA0 || v == 0x1680 || (0x2000
        <= v && v <= 0x200A) || v == 0x2028 || v == 0x2029 || v == 0x202F || v == 0x205F || v
        == 0x3000
}

pub fn is_control(c: char) -> (r: bool)
    ensures
        r == control(c),
{
    let v = c as u32;
    v <= 0x1F || (0x7F <= v && v <= 0x9F)
}

/// The characters of `char::to_lowercase`: the full Unicode lowercase mapping.
pub uninterp spec fn lowercase_of(c: char) -> Seq<char>;

/// `char::is_alphanumeric`: the Unicode `Alphabetic` or `Numeric` classes.
pub uninterp spec fn alphanumeric(c: char) -> bool;

/// `char::is_lowercase`: the Unicode `Lowercase` property.
pub uninterp spec fn lowercase_letter(c: char) -> bool;

/// `char::is_uppercase`: the Unicode `Uppercase` property.
pub uninterp spec fn uppercase_letter(c: char) -> bool;

/// Calls `char::to_lowercase`, whose documentation promises one or more
/// characters: the character's lowercase mapping, or the character itself
/// when it has none.
#[verifier::external_body]
pub(crate) fn char_lowercase(c: char) -> (r: Vec<char>)
    ensures
        r@ == lowercase_of(c),
        r@.len() >= 1,
{
    c.to_lowercase().collect()
}

/// Calls `char::is_alphanumeric`.
#[verifier::external_body]
pub(crate) fn is_alphanumeric(c: char) -> (r: bool)
    ensures
        r == alphanumeric(c),
{
    c.is_alphanumeric()
}

/// Calls `char::is_lowercase`.
#[verifier::external_body]
pub(crate) fn is_lowercase(c: char) -> (r: bool)
    ensures
        r == lowercase_letter(c),
{
    c.is_lowercase()
}

/// Calls `char::is_uppercase`.
#[verifier::external_body]
pub(crate) fn is_uppercase(c: char) -> (r: bool)
    ensures
        r == uppercase_letter(c),
{
    c.is_uppercase()
}

/// Calls `String::push`, which appends one character.
#[verifier::external_body]
pub(crate) fn push_char(s: &mut String, c: char)
    ensures
        final(s)@ == old(s)@.push(c),
{
    s.push(c)
}

/// The characters of a string slice.
pub fn chars_of(s: &str) -> (v: Vec<char>)
    ensures
        v@ == s@,
{
    broadcast use vstd::string::group_string_axioms;

    let mut v: Vec<char> = Vec::new();
    for c in it: s.chars()
        invariant
            it.seq() == s@,
            v@ == it.seq().take(it.index() as int),
    {
        v.push(c);
    }
    v
}

/// A string made of the given characters.
pub fn string_of(v: &[char]) -> (s: String)
    ensures
        s@ == v@,
{
    let mut s = String::new();
    let mut i: usize = 0;
    while i < v.len()
        invariant
            i <= v.len(),
            s@ == v@.take(i as int),
        decreases v.len() - i,
    {
        push_char(&mut s, v[i]);
        i += 1;
        assert(s@ == v@.take(i as int));
    }
    assert(v@.take(v.len() as int) == v@);
    s
}


/// The lowercase form of a character sequence: each character replaced by its
/// full lowercase mapping.
pub open spec fn lower_chars(w: Seq<char>) -> Seq<char>
    decreases w.len(),
{
    if w.len() == 0 {
        seq![]
    } else {
        lower_chars(w.drop_last()) + lowercase_of(w.last())
    }
}

pub fn lowercase_chars(v: &[char]) -> (r: Vec<char>)
    ensures
        r@ == lower_chars(v@),
        r@.len() >= v@.len(),
{
    let mut r: Vec<char> = Vec::new();
    let mut i: usize = 0;
    while i < v.len()
        invariant
            i <= v.len(),
            r@ == lower_chars(v@.take(i as int)),
            r@.len() >= i,
        decreases v.len() - i,
    {
        let mut lower = char_lowercase(v[i]);
        let ghost before = r@;
        r.append(&mut lower);
        assert(v@.take(i + 1).drop_last() == v@.take(i as int));
        i += 1;
    }
    assert(v@.take(v.len() as int) == v@);
    r
}

/// The whitespace-separated words of `s` that follow, given the characters of
/// the word being read so far.
pub open spec fn words_from(s: Seq<char>, current: Seq<char>) -> Seq<Seq<char>>
    decreases s.len(),
{
    if s.len() == 0 {
        if current.len() > 0 {
            seq![current]
        } else {
            seq![]
        }
    } else if whitespace(s[0]) {
        (if current.len() > 0 {
            seq![current]
        } else {
            seq![]
        }) + words_from(s.drop_first(), seq![])
    } else {
        words_from(s.drop_first(), current.push(s[0]))
    }
}

/// `str::split_whitespace`: the maximal runs of non-whitespace characters.
pub open spec fn words(s: Seq<char>) -> Seq<Seq<char>> {
    words_from(s, seq![])
}

/// Words are never empty.
pub proof fn lemma_words_from_nonempty(s: Seq<char>, current: Seq<char>)
    ensures
        forall|i: int| 0 <= i < words_from(s, current).len() ==> #[trigger] words_from(s, current)[i].len() > 0,
    decreases s.len(),
{
    if s.len() > 0 {
        if whitespace(s[0]) {
            lemma_words_from_nonempty(s.drop_first(), seq![]);
            let head: Seq<Seq<char>> = if current.len() > 0 {
                seq![current]
            } else {
                seq![]
            };
            let rest = words_from(s.drop_first(), seq![]);
            assert(words_from(s, current) == head + rest);
            assert forall|i: int| 0 <= i < (head + rest).len() implies #[trigger] (head + rest)[i].len() > 0 by {
                if i >= head.len() {
                    assert((head + rest)[i] == rest[i - head.len()]);
                }
            }
        } else {
            lemma_words_from_nonempty(s.drop_first(), current.push(s[0]));
            assert(words_from(s, current) == words_from(s.drop_first(), current.push(s[0])));
        }
    } else {
        if current.len() > 0 {
            assert(words_from(s, current) == seq![current]);
        } else {
            assert(words_from(s, current) == Seq::<Seq<char>>::empty());
        }
    }
}

/// The character sequences held by a vector of character vectors.
pub open spec fn char_vecs(v: Seq<Vec<char>>) -> Seq<Seq<char>> {
    v.map_values(|w: Vec<char>| w@)
}

pub fn split_words(v: &[char]) -> (r: Vec<Vec<char>>)
    ensures
        char_vecs(r@) == words(v@),
{
    let mut r: Vec<Vec<char>> = Vec::new();
    let mut current: Vec<char> = Vec::new();
    let mut i: usize = 0;
    assert(v@.skip(0) == v@);
    while i < v.len()
        invariant
            i <= v.len(),
            char_vecs(r@) + words_from(v@.skip(i as int), current@) == words(v@),
        decreases v.len() - i,
    {
        assert(v@.skip(i as int).drop_first() == v@.skip(i + 1));
        if is_whitespace(v[i]) {
            if current.len() > 0 {
                let ghost old_r = char_vecs(r@);
                let word = current;
                current = Vec::new();
                r.push(word);
                assert(char_vecs(r@) =~= old_r.push(word@));
                assert(seq![word@] + words_from(v@.skip(i + 1), seq![]) == words_from(
                    v@.skip(i as int),
                    word@,
                ));
                assert(old_r.push(word@) + words_from(v@.skip(i + 1), seq![]) == old_r + (
                seq![word@] + words_from(v@.skip(i + 1), seq![])));
            } else {
                assert(current@ == Seq::<char>::empty());
                assert(Seq::<Seq<char>>::empty() + words_from(v@.skip(i + 1), seq![])
                    == words_from(v@.skip(i + 1), seq![]));
            }
        } else {
            current.push(v[i]);
        }
        i += 1;
    }
    if current.len() > 0 {
        let ghost old_r = char_vecs(r@);
        let word = current;
        r.push(word);
        assert(char_vecs(r@) =~= old_r.push(word@));
    }
    r
}

/// The index of the first non-whitespace character at or after `i`.
pub open spec fn trim_start_from(s: Seq<char>, i: int) -> int
    decreases s.len() - i,
{
    if i >= s.len() {
        s.len() as int
    } else if whitespace(s[i]) {
        trim_start_from(s, i + 1)
    } else {
        i
    }
}

/// One past the last non-whitespace character before `j`, not below `lo`.
pub open spec fn trim_end_from(s: Seq<char>, lo: int, j: int) -> int
    decreases j - lo,
{
    if j <= lo {
        lo
    } else if whitespace(s[j - 1]) {
        trim_end_from(s, lo, j - 1)
    } else {
        j
    }
}

/// `str::trim`: `s` without its leading and trailing whitespace.
pub open spec fn trim(s: Seq<char>) -> Seq<char> {
    let lo = trim_start_from(s, 0);
    s.subrange(lo, trim_end_from(s, lo, s.len() as int))
}

/// The first non-whitespace index found from `i` holds no whitespace.
proof fn lemma_trim_start_stops(s: Seq<char>, i: int)
    requires
        0 <= i <= s.len(),
    ensures
        trim_start_from(s, i) == s.len() || !whitespace(s[trim_start_from(s, i)]),
    decreases s.len() - i,
{
    if i < s.len() && whitespace(s[i]) {
        lemma_trim_start_stops(s, i + 1);
    }
}

/// The end found from `j` is `lo` or follows a non-whitespace character.
proof fn lemma_trim_end_stops(s: Seq<char>, lo: int, j: int)
    requires
        lo <= j,
    ensures
        trim_end_from(s, lo, j) == lo || !whitespace(s[trim_end_from(s, lo, j) - 1]),
    decreases j - lo,
{
    if j > lo && whitespace(s[j - 1]) {
        lemma_trim_end_stops(s, lo, j - 1);
    }
}

/// A trimmed sequence neither starts nor ends with whitespace.
pub proof fn lemma_trim_edges(s: Seq<char>)
    ensures
        trim(s).len() > 0 ==> !whitespace(trim(s)[0]) && !whitespace(trim(s).last()),
{
    let lo = trim_start_from(s, 0);
    lemma_trim_start_bounds(s, 0);
    lemma_trim_start_stops(s, 0);
    let hi = trim_end_from(s, lo, s.len() as int);
    lemma_trim_end_bounds(s, lo, s.len() as int);
    lemma_trim_end_stops(s, lo, s.len() as int);
}

/// Trimming leaves a sequence without outer whitespace unchanged.
pub proof fn lemma_trim_unpadded(s: Seq<char>)
    requires
        s.len() > 0 ==> !whitespace(s[0]) && !whitespace(s.last()),
    ensures
        trim(s) == s,
{
    assert(s.subrange(0, s.len() as int) == s);
}

proof fn lemma_trim_start_bounds(s: Seq<char>, i: int)
    requires
        0 <= i <= s.len(),
    ensures
        i <= trim_start_from(s, i) <= s.len(),
    decreases s.len() - i,
{
    if i < s.len() && whitespace(s[i]) {
        lemma_trim_start_bounds(s, i + 1);
    }
}

proof fn lemma_trim_end_bounds(s: Seq<char>, lo: int, j: int)
    requires
        lo <= j,
    ensures
        lo <= trim_end_from(s, lo, j) <= j,
    decreases j - lo,
{
    if j > lo && whitespace(s[j - 1]) {
        lemma_trim_end_bounds(s, lo, j - 1);
    }
}

/// The bounds of the trimmed part of `v`.
pub fn trim_bounds(v: &[char]) -> (r: (usize, usize))
    ensures
        r.0 == trim_start_from(v@, 0),
        r.1 == trim_end_from(v@, r.0 as int, v@.len() as int),
        r.0 <= r.1 <= v@.len(),
        v@.subrange(r.0 as int, r.1 as int) == trim(v@),
{
    let mut lo: usize = 0;
    while lo < v.len() && is_whitespace(v[lo])
        invariant
            lo <= v.len(),
            trim_start_from(v@, lo as int) == trim_start_from(v@, 0),
        decreases v.len() - lo,
    {
        lo += 1;
    }
    let mut hi: usize = v.len();
    while hi > lo && is_whitespace(v[hi - 1])
        invariant
            lo <= hi <= v.len(),
            trim_end_from(v@, lo as int, hi as int) == trim_end_from(v@, lo as int, v@.len() as int),
        decreases hi - lo,
    {
        hi -= 1;
    }
    (lo, hi)
}

/// The trimmed characters of `v`.
pub fn trimmed(v: &[char]) -> (r: Vec<char>)
    ensures
        r@ == trim(v@),
{
    let (lo, hi) = trim_bounds(v);
    let mut r: Vec<char> = Vec::new();
    let mut i = lo;
    while i < hi
        invariant
            lo <= i <= hi <= v.len(),
            r@ == v@.subrange(lo as int, i as int),
        decreases hi - i,
    {
        r.push(v[i]);
        i += 1;
    }
    r
}

/// Whether two character sequences are equal.
pub fn same_chars(a: &[char], b: &[char]) -> (r: bool)
    ensures
        r == (a@ == b@),
{
    if a.len() != b.len() {
        return false;
    }
    let mut i: usize = 0;
    while i < a.len()
        invariant
            i <= a.len() == b.len(),
            a@.take(i as int) == b@.take(i as int),
        decreases a.len() - i,
    {
        if a[i] != b[i] {
            assert(a@[i as int] != b@[i as int]);
            return false;
        }
        assert(a@.take(i + 1) == a@.take(i as int).push(a@[i as int]));
        assert(b@.take(i + 1) == b@.take(i as int).push(b@[i as int]));
        i += 1;
    }
    assert(a@.take(a.len() as int) == a@);
    assert(b@.take(b.len() as int) == b@);
    true
}

/// `t` occurs in `s` starting at index `i`.
pub open spec fn occurs_at(s: Seq<char>, t: Seq<char>, i: int) -> bool {
    0 <= i && i + t.len() <= s.len() && s.subrange(i, i + t.len()) == t
}

pub open spec fn starts_with(s: Seq<char>, t: Seq<char>) -> bool {
    occurs_at(s, t, 0)
}

pub open spec fn contains(s: Seq<char>, t: Seq<char>) -> bool {
    exists|i: int| occurs_at(s, t, i)
}

pub fn matches_at(s: &[char], t: &[char], i: usize) -> (r: bool)
    ensures
        r == occurs_at(s@, t@, i as int),
{
    if i > s.len() || t.len() > s.len() - i {
        return false;
    }
    let mut k: usize = 0;
    while k < t.len()
        invariant
            i + t.len() <= s.len(),
            k <= t.len(),
            forall|m: int| 0 <= m < k ==> s@[i + m] == t@[m],
        decreases t.len() - k,
    {
        if s[i + k] != t[k] {
            assert(s@.subrange(i as int, i + t.len())[k as int] != t@[k as int]);
            return false;
        }
        k += 1;
    }
    assert(s@.subrange(i as int, i + t.len()) == t@);
    true
}

pub fn has_prefix(s: &[char], t: &[char]) -> (r: bool)
    ensures
        r == starts_with(s@, t@),
{
    matches_at(s, t, 0)
}

pub fn has_infix(s: &[char], t: &[char]) -> (r: bool)
    ensures
        r == contains(s@, t@),
{
    if t.len() > s.len() {
        assert forall|i: int| !occurs_at(s@, t@, i) by {}
        return false;
    }
    let last = s.len() - t.len();
    let mut i: usize = 0;
    loop
        invariant
            t.len() <= s.len(),
            last == s.len() - t.len(),
            i <= last,
            forall|j: int| 0 <= j < i ==> !occurs_at(s@, t@, j),
        ensures
            forall|j: int| 0 <= j <= last ==> !occurs_at(s@, t@, j),
        decreases last - i,
    {
        if matches_at(s, t, i) {
            return true;
        }
        if i == last {
            break;
        }
        i += 1;
    }
    assert forall|j: int| !occurs_at(s@, t@, j) by {
        if 0 <= j <= last {
        }
    }
    false
}

/// The first index at or after `from` that holds `c`, or the length.
pub open spec fn first_from(s: Seq<char>, c: char, from: int) -> int
    decreases s.len() - from,
{
    if from >= s.len() {
        s.len() as int
    } else if s[from] == c {
        from
    } else {
        first_from(s, c, from + 1)
    }
}

pub proof fn lemma_first_from_bounds(s: Seq<char>, c: char, from: int)
    requires
        0 <= from,
    ensures
        from <= first_from(s, c, from) || first_from(s, c, from) == s.len(),
        first_from(s, c, from) <= s.len() || from > s.len(),
        first_from(s, c, from) < s.len() ==> s[first_from(s, c, from)] == c,
    decreases s.len() - from,
{
    if from < s.len() && s[from] != c {
        lemma_first_from_bounds(s, c, from + 1);
    }
}

pub proof fn lemma_first_from_found(s: Seq<char>, c: char, from: int, idx: int)
    requires
        0 <= from <= idx < s.len(),
        forall|k: int| from <= k < idx ==> s[k] != c,
        s[idx] == c,
    ensures
        first_from(s, c, from) == idx,
    decreases idx - from,
{
    if from < idx {
        lemma_first_from_found(s, c, from + 1, idx);
    }
}

pub proof fn lemma_first_from_absent(s: Seq<char>, c: char, from: int)
    requires
        0 <= from <= s.len(),
        forall|k: int| from <= k < s.len() ==> s[k] != c,
    ensures
        first_from(s, c, from) == s.len(),
    decreases s.len() - from,
{
    if from < s.len() {
        lemma_first_from_absent(s, c, from + 1);
    }
}

/// The index of the first `c` at or after `from` in `v`, or its length.
pub fn find_char(v: &[char], c: char, from: usize) -> (r: usize)
    requires
        from <= v@.len(),
    ensures
        r == first_from(v@, c, from as int),
        from <= r <= v@.len(),
{
    let mut i = from;
    while i < v.len() && v[i] != c
        invariant
            from <= i <= v@.len(),
            first_from(v@, c, i as int) == first_from(v@, c, from as int),
        decreases v.len() - i,
    {
        i += 1;
    }
    i
}

} // verus!
