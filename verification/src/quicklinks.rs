//! Quicklinks: named links or paths with placeholders, their validation,
//! expansion, filtering and import.

use crate::text::{
    chars_of, control, find_char, first_from, has_infix, has_prefix, is_control, is_whitespace,
    push_char, same_chars, string_of, trim, trimmed, whitespace, words, split_words, char_vecs,
    contains, starts_with,
};
use vstd::prelude::*;
use vstd::utf8::encode_utf8;

verus! {

pub const MAX_LINKS: usize = 200;
pub const MAX_LINK_BYTES: usize = 16384;
pub const MAX_IMPORT_BYTES: usize = 4194304;

pub const INVALID_DESTINATION: &'static str = "Enter a valid URL, app link, or absolute path.";
pub const INVALID_LINK: &'static str = "Enter a link or absolute path, up to 16 KB.";
pub const INVALID_PLACEHOLDER: &'static str = "Invalid placeholder. Use {Query}, {argument name=\"Query\"}, {clipboard}, or add | raw.";
pub const LINK_TOO_LONG: &'static str = "Expanded link exceeds 16 KB.";
pub const INVALID_ID: &'static str = "Invalid quicklink ID.";
pub const INVALID_NAME: &'static str = "Enter a name, up to 120 characters.";
pub const INVALID_TARGET: &'static str = "Invalid target application.";
pub const TOO_MANY_LINKS: &'static str = "You can save up to 200 quicklinks.";
pub const DUPLICATE_ID: &'static str = "Quicklink IDs must be unique.";
pub const TOO_MANY_INPUTS: &'static str = "Use up to 8 input fields.";
/// The clipboard text of a trial render.
pub const TRIAL_CLIPBOARD: &'static str = "https://example.invalid/value";
/// The date and time of a trial render.
pub const TRIAL_DATE: &'static str = "2026-01-01";
/// The value of each input field in a trial render.
pub const TRIAL_INPUT: &'static str = "value";
/// The most input fields one link may ask for.
pub const MAX_INPUTS: usize = 8;

/// The JSON string literal that `serde_json::to_string` makes of a string.
pub uninterp spec fn json_string_of(s: Seq<char>) -> Seq<char>;

/// Calls `serde_json::to_string` on a string slice; serializing a string
/// into memory does not fail.
#[verifier::external_body]
fn json_string(s: &str) -> (r: String)
    ensures
        r@ == json_string_of(s@),
{
    match serde_json::to_string(s) {
        Ok(json) => json,
        Err(_) => String::new(),
    }
}

/// The number of UTF-8 bytes of a character sequence.
pub open spec fn byte_len(v: Seq<char>) -> int {
    encode_utf8(v).len() as int
}

/// The number of UTF-8 bytes of one character.
pub fn char_width(c: char) -> (n: usize)
    ensures
        n == encode_utf8(seq![c]).len(),
        1 <= n <= 4,
{
    let v = c as u32;
    proof {
        vstd::utf8::char_is_scalar(c);
        assert(encode_utf8(seq![c]) == vstd::utf8::encode_scalar(c as u32) + encode_utf8(seq![c].drop_first()));
        assert(seq![c].drop_first() == Seq::<char>::empty());
    }
    if v < 0x80 {
        1
    } else if v < 0x800 {
        2
    } else if v < 0x10000 {
        3
    } else {
        4
    }
}

/// Whether `v` takes more than `limit` bytes in UTF-8.
pub fn utf8_exceeds(v: &[char], limit: usize) -> (r: bool)
    ensures
        r == (byte_len(v@) > limit),
{
    utf8_len_within(v, limit).is_none()
}

/// The UTF-8 length of `v` when it is at most `limit`.
pub fn utf8_len_within(v: &[char], limit: usize) -> (r: Option<usize>)
    ensures
        match r {
            Some(n) => n == byte_len(v@) && n <= limit,
            None => byte_len(v@) > limit,
        },
{
    let mut total: usize = 0;
    let mut i: usize = v.len();
    assert(v@.skip(v@.len() as int) == Seq::<char>::empty());
    while i > 0
        invariant
            i <= v.len(),
            total == byte_len(v@.skip(i as int)),
            total <= limit,
        decreases i,
    {
        let w = char_width(v[i - 1]);
        proof {
            let tail = v@.skip(i - 1);
            assert(tail.drop_first() == v@.skip(i as int));
            assert(tail[0] == v@[i - 1]);
            vstd::utf8::char_is_scalar(v@[i - 1]);
            assert(encode_utf8(seq![v@[i - 1]]) == vstd::utf8::encode_scalar(v@[i - 1] as u32) + encode_utf8(seq![v@[i - 1]].drop_first()));
            assert(seq![v@[i - 1]].drop_first() == Seq::<char>::empty());
        }
        if w > limit - total {
            proof {
                lemma_byte_len_suffix(v@, (i - 1) as int);
            }
            return None;
        }
        total = total + w;
        i -= 1;
    }
    assert(v@.skip(0) == v@);
    Some(total)
}

/// A suffix never takes more bytes than the whole sequence.
pub proof fn lemma_byte_len_suffix(s: Seq<char>, i: int)
    requires
        0 <= i <= s.len(),
    ensures
        byte_len(s.skip(i)) <= byte_len(s),
    decreases i,
{
    if i > 0 {
        lemma_byte_len_suffix(s, i - 1);
        assert(s.skip(i - 1).drop_first() == s.skip(i));
    } else {
        assert(s.skip(0) == s);
    }
}

pub open spec fn has_control(v: Seq<char>) -> bool {
    exists|i: int| 0 <= i < v.len() && control(#[trigger] v[i])
}

pub fn any_control(v: &[char]) -> (r: bool)
    ensures
        r == has_control(v@),
{
    let mut i: usize = 0;
    while i < v.len()
        invariant
            i <= v.len(),
            forall|k: int| 0 <= k < i ==> !control(#[trigger] v@[k]),
        decreases v.len() - i,
    {
        if is_control(v[i]) {
            return true;
        }
        i += 1;
    }
    false
}

pub open spec fn has_whitespace(v: Seq<char>) -> bool {
    exists|i: int| 0 <= i < v.len() && whitespace(#[trigger] v[i])
}

pub fn any_whitespace(v: &[char]) -> (r: bool)
    ensures
        r == has_whitespace(v@),
{
    let mut i: usize = 0;
    while i < v.len()
        invariant
            i <= v.len(),
            forall|k: int| 0 <= k < i ==> !whitespace(#[trigger] v@[k]),
        decreases v.len() - i,
    {
        if is_whitespace(v[i]) {
            return true;
        }
        i += 1;
    }
    false
}

/// An absolute path: it starts with `/` or with `~/`.
pub open spec fn absolute_path(v: Seq<char>) -> bool {
    (v.len() >= 1 && v[0] == '/') || (v.len() >= 2 && v[0] == '~' && v[1] == '/')
}

pub open spec fn ascii_letter(c: char) -> bool {
    ('a' <= c <= 'z') || ('A' <= c <= 'Z')
}

pub open spec fn ascii_alnum(c: char) -> bool {
    ascii_letter(c) || ('0' <= c <= '9')
}

pub open spec fn ascii_lower(c: char) -> char {
    if 'A' <= c <= 'Z' {
        (((c as u32) + 32) as u8) as char
    } else {
        c
    }
}

/// A URL scheme: ASCII letters, digits, `+`, `.` and `-`, starting with a letter.
pub open spec fn valid_scheme(scheme: Seq<char>) -> bool {
    &&& scheme.len() > 0
    &&& ascii_letter(scheme[0])
    &&& forall|i: int| 0 <= i < scheme.len() ==> ascii_alnum(#[trigger] scheme[i]) || scheme[i] == '+' || scheme[i] == '.' || scheme[i] == '-'
}

pub open spec fn lower_scheme(scheme: Seq<char>) -> Seq<char> {
    scheme.map_values(|c: char| ascii_lower(c))
}

/// Schemes that could run code and are never opened.
pub open spec fn blocked_scheme(lower: Seq<char>) -> bool {
    lower == "javascript"@ || lower == "data"@ || lower == "vbscript"@ || lower == "shell"@
}

/// A web address after `http:` or `https:`: `//`, then a host that does not
/// start with `/` and has no whitespace before the first `/`.
pub open spec fn web_remainder(rem: Seq<char>) -> bool {
    &&& rem.len() >= 2 && rem[0] == '/' && rem[1] == '/'
    &&& {
        let rest = rem.skip(2);
        rest.len() > 0 && rest[0] != '/' && !has_whitespace(rest.take(first_from(rest, '/', 0)))
    }
}

/// Where a quicklink leads: an absolute path, a URL with an allowed scheme,
/// or a bare host name (which gets `https://`); `None` when it is invalid.
pub open spec fn destination_spec(value: Seq<char>) -> Option<Seq<char>> {
    let v = trim(value);
    if v.len() == 0 || byte_len(v) > MAX_LINK_BYTES || has_control(v) {
        None
    } else if absolute_path(v) {
        Some(v)
    } else {
        let colon = first_from(v, ':', 0);
        if colon < v.len() {
            let scheme = v.take(colon);
            let rem = v.skip(colon + 1);
            let lower = lower_scheme(scheme);
            if !valid_scheme(scheme) || rem.len() == 0 || blocked_scheme(lower) {
                None
            } else if (lower == "https"@ || lower == "http"@) && !web_remainder(rem) {
                None
            } else {
                Some(v)
            }
        } else {
            let host = v.take(first_from(v, '/', 0));
            if contains(host, seq!['.']) && !has_whitespace(host) {
                Some("https://"@ + v)
            } else {
                None
            }
        }
    }
}

/// The first `n` characters of `v`.
pub fn slice_prefix(v: &[char], n: usize) -> (r: Vec<char>)
    requires
        n <= v@.len(),
    ensures
        r@ == v@.take(n as int),
{
    slice_chars(v, 0, n)
}

pub fn slice_chars(v: &[char], from: usize, to: usize) -> (r: Vec<char>)
    requires
        from <= to <= v@.len(),
    ensures
        r@ == v@.subrange(from as int, to as int),
{
    let mut r: Vec<char> = Vec::new();
    let mut i = from;
    while i < to
        invariant
            from <= i <= to <= v@.len(),
            r@ == v@.subrange(from as int, i as int),
        decreases to - i,
    {
        r.push(v[i]);
        i += 1;
    }
    r
}

fn scheme_is_valid(scheme: &[char]) -> (r: bool)
    ensures
        r == valid_scheme(scheme@),
{
    if scheme.len() == 0 {
        return false;
    }
    let first = scheme[0];
    if !(('a' <= first && first <= 'z') || ('A' <= first && first <= 'Z')) {
        return false;
    }
    let mut i: usize = 0;
    while i < scheme.len()
        invariant
            i <= scheme.len(),
            forall|k: int| 0 <= k < i ==> ascii_alnum(#[trigger] scheme@[k]) || scheme@[k] == '+' || scheme@[k] == '.' || scheme@[k] == '-',
        decreases scheme.len() - i,
    {
        let c = scheme[i];
        if !(('a' <= c && c <= 'z') || ('A' <= c && c <= 'Z') || ('0' <= c && c <= '9') || c == '+'
            || c == '.' || c == '-') {
            return false;
        }
        i += 1;
    }
    true
}

fn ascii_lowercase(v: &[char]) -> (r: Vec<char>)
    ensures
        r@ == lower_scheme(v@),
{
    let mut r: Vec<char> = Vec::new();
    let mut i: usize = 0;
    while i < v.len()
        invariant
            i <= v.len(),
            r@ == v@.take(i as int).map_values(|c: char| ascii_lower(c)),
        decreases v.len() - i,
    {
        let c = v[i];
        let lower = if 'A' <= c && c <= 'Z' {
            ((c as u32) + 32) as u8 as char
        } else {
            c
        };
        r.push(lower);
        i += 1;
        assert(v@.take(i as int).map_values(|c: char| ascii_lower(c)) == v@.take(i - 1).map_values(|c: char| ascii_lower(c)).push(ascii_lower(c)));
    }
    assert(v@.take(v.len() as int) == v@);
    r
}

fn is_word(v: &[char], word: &str) -> (r: bool)
    ensures
        r == (v@ == word@),
{
    let w = chars_of(word);
    same_chars(v, &w)
}

fn web_remainder_ok(rem: &[char]) -> (r: bool)
    ensures
        r == web_remainder(rem@),
{
    if !(rem.len() >= 2 && rem[0] == '/' && rem[1] == '/') {
        return false;
    }
    let rest = slice_chars(rem, 2, rem.len());
    assert(rest@ == rem@.skip(2));
    if rest.len() == 0 || rest[0] == '/' {
        return false;
    }
    let slash = find_char(&rest, '/', 0);
    let host = slice_chars(&rest, 0, slash);
    assert(host@ == rest@.take(slash as int));
    !any_whitespace(&host)
}

/// Checks a link target and returns where it leads.
pub fn destination(value: &str) -> (r: Result<String, String>)
    ensures
        match destination_spec(value@) {
            Some(d) => r matches Ok(s) && s@ == d,
            None => r matches Err(e) && e@ == INVALID_DESTINATION@,
        },
{
    let all = chars_of(value);
    let v = trimmed(&all);
    if v.len() == 0 || utf8_exceeds(&v, MAX_LINK_BYTES) || any_control(&v) {
        return Err(INVALID_DESTINATION.to_owned());
    }
    if (v.len() >= 1 && v[0] == '/') || (v.len() >= 2 && v[0] == '~' && v[1] == '/') {
        return Ok(string_of(&v));
    }
    let colon = find_char(&v, ':', 0);
    if colon < v.len() {
        let scheme = slice_chars(&v, 0, colon);
        let rem = slice_chars(&v, colon + 1, v.len());
        assert(scheme@ == v@.take(colon as int));
        assert(rem@ == v@.skip(colon + 1));
        let lower = ascii_lowercase(&scheme);
        if !scheme_is_valid(&scheme) || rem.len() == 0 || is_word(&lower, "javascript") || is_word(
            &lower,
            "data",
        ) || is_word(&lower, "vbscript") || is_word(&lower, "shell") {
            return Err(INVALID_DESTINATION.to_owned());
        }
        if (is_word(&lower, "https") || is_word(&lower, "http")) && !web_remainder_ok(&rem) {
            return Err(INVALID_DESTINATION.to_owned());
        }
        Ok(string_of(&v))
    } else {
        let slash = find_char(&v, '/', 0);
        let host = slice_chars(&v, 0, slash);
        assert(host@ == v@.take(slash as int));
        let dot = ['.'];
        if has_infix(&host, &dot) && !any_whitespace(&host) {
            assert(dot@ == seq!['.']);
            let mut out = "https://".to_owned();
            let mut i: usize = 0;
            while i < v.len()
                invariant
                    i <= v.len(),
                    out@ == "https://"@ + v@.take(i as int),
                decreases v.len() - i,
            {
                push_char(&mut out, v[i]);
                i += 1;
                assert(v@.take(i as int) == v@.take(i - 1).push(v@[i - 1]));
            }
            assert(v@.take(v.len() as int) == v@);
            Ok(out)
        } else {
            assert(dot@ == seq!['.']);
            Err(INVALID_DESTINATION.to_owned())
        }
    }
}


pub open spec fn hex_digit(n: u8) -> char {
    if n < 10 {
        ((48 + n) as u8) as char
    } else {
        ((55 + n) as u8) as char
    }
}

/// Bytes left as they are in a URL component.
pub open spec fn unreserved(b: u8) -> bool {
    (48 <= b <= 57) || (65 <= b <= 90) || (97 <= b <= 122) || b == 45 || b == 46 || b == 95 || b
        == 126
}

/// Percent-encoding of a byte sequence: unreserved bytes stay, every other
/// byte becomes `%` and two uppercase hexadecimal digits.
pub open spec fn percent_encoded(bytes: Seq<u8>) -> Seq<char>
    decreases bytes.len(),
{
    if bytes.len() == 0 {
        seq![]
    } else {
        let b = bytes.last();
        percent_encoded(bytes.drop_last()) + if unreserved(b) {
            seq![b as char]
        } else {
            seq!['%', hex_digit(b / 16), hex_digit(b % 16)]
        }
    }
}

fn hex(n: u8) -> (c: char)
    requires
        n < 16,
    ensures
        c == hex_digit(n),
{
    if n < 10 {
        (48 + n) as char
    } else {
        (55 + n) as char
    }
}

/// Percent-encodes the UTF-8 bytes of `text`.
pub fn percent_encode(text: &[char]) -> (r: Vec<char>)
    ensures
        r@ == percent_encoded(encode_utf8(text@)),
{
    let s = string_of(text);
    let bytes = s.as_str().as_bytes();
    let mut out: Vec<char> = Vec::new();
    let mut i: usize = 0;
    while i < bytes.len()
        invariant
            bytes@ == encode_utf8(text@),
            i <= bytes@.len(),
            out@ == percent_encoded(bytes@.take(i as int)),
        decreases bytes.len() - i,
    {
        let b = bytes[i];
        assert(bytes@.take(i + 1).drop_last() == bytes@.take(i as int));
        if (48 <= b && b <= 57) || (65 <= b && b <= 90) || (97 <= b && b <= 122) || b == 45 || b
            == 46 || b == 95 || b == 126 {
            out.push(b as char);
        } else {
            out.push('%');
            out.push(hex(b / 16));
            out.push(hex(b % 16));
        }
        i += 1;
    }
    assert(bytes@.take(bytes@.len() as int) == bytes@);
    out
}

/// Where the placeholder that starts after a `{` ends: the first `}` that is
/// not inside double quotes, where a backslash inside quotes escapes the next
/// character.
pub open spec fn token_end_from(s: Seq<char>, i: int, quoted: bool, escaped: bool) -> Option<int>
    decreases s.len() - i,
{
    if i >= s.len() {
        None
    } else if escaped {
        token_end_from(s, i + 1, quoted, false)
    } else if quoted && s[i] == '\\' {
        token_end_from(s, i + 1, quoted, true)
    } else if s[i] == '"' {
        token_end_from(s, i + 1, !quoted, false)
    } else if s[i] == '}' && !quoted {
        Some(i)
    } else {
        token_end_from(s, i + 1, quoted, false)
    }
}

pub proof fn lemma_token_end_bounds(s: Seq<char>, i: int, quoted: bool, escaped: bool)
    requires
        0 <= i,
    ensures
        token_end_from(s, i, quoted, escaped) matches Some(e) ==> i <= e < s.len(),
    decreases s.len() - i,
{
    if i < s.len() {
        if escaped {
            lemma_token_end_bounds(s, i + 1, quoted, false);
        } else if quoted && s[i] == '\\' {
            lemma_token_end_bounds(s, i + 1, quoted, true);
        } else if s[i] == '"' {
            lemma_token_end_bounds(s, i + 1, !quoted, false);
        } else if s[i] == '}' && !quoted {
        } else {
            lemma_token_end_bounds(s, i + 1, quoted, false);
        }
    }
}

/// The end of the placeholder in `text`, which starts right after its `{`.
fn token_end(text: &[char], from: usize) -> (end: Option<usize>)
    requires
        from <= text@.len(),
    ensures
        match end {
            Some(e) => token_end_from(text@, from as int, false, false) == Some(e as int) && from <= e < text@.len(),
            None => token_end_from(text@, from as int, false, false) is None,
        },
{
    let mut quoted = false;
    let mut escaped = false;
    let mut i = from;
    while i < text.len()
        invariant
            from <= i <= text@.len(),
            token_end_from(text@, i as int, quoted, escaped) == token_end_from(text@, from as int, false, false),
        decreases text.len() - i,
    {
        let ch = text[i];
        if escaped {
            escaped = false;
        } else if quoted && ch == '\\' {
            escaped = true;
        } else if ch == '"' {
            quoted = !quoted;
        } else if ch == '}' && !quoted {
            return Some(i);
        }
        i += 1;
    }
    None
}

/// The decimal digits of a number.
pub open spec fn decimal(n: nat) -> Seq<char>
    decreases n,
{
    if n < 10 {
        seq![((48 + n) as u8) as char]
    } else {
        decimal(n / 10).push(((48 + n % 10) as u8) as char)
    }
}

pub fn push_decimal(out: &mut Vec<char>, n: u64)
    ensures
        final(out)@ == old(out)@ + decimal(n as nat),
    decreases n,
{
    if n >= 10 {
        push_decimal(out, n / 10);
    }
    let digit = (48 + n % 10) as u8;
    out.push(digit as char);
}

pub fn push_all(out: &mut Vec<char>, more: &[char])
    ensures
        final(out)@ == old(out)@ + more@,
{
    let ghost start = out@;
    let mut i: usize = 0;
    while i < more.len()
        invariant
            i <= more.len(),
            out@ == start + more@.take(i as int),
        decreases more.len() - i,
    {
        out.push(more[i]);
        i += 1;
        assert(more@.take(i as int) == more@.take(i - 1).push(more@[i - 1]));
    }
    assert(more@.take(more.len() as int) == more@);
}

/// The index of the last `c` in `s`, or -1.
pub open spec fn last_index(s: Seq<char>, c: char) -> int
    decreases s.len(),
{
    if s.len() == 0 {
        -1
    } else if s.last() == c {
        s.len() - 1
    } else {
        last_index(s.drop_last(), c)
    }
}

fn find_last(v: &[char], c: char) -> (r: Option<usize>)
    ensures
        match r {
            Some(i) => last_index(v@, c) == i && i < v@.len(),
            None => last_index(v@, c) == -1,
        },
{
    let mut i = v.len();
    assert(v@.take(i as int) == v@);
    while i > 0
        invariant
            i <= v.len(),
            last_index(v@.take(i as int), c) == last_index(v@, c),
        decreases i,
    {
        assert(v@.take(i as int).drop_last() == v@.take(i - 1));
        if v[i - 1] == c {
            return Some(i - 1);
        }
        i -= 1;
    }
    None
}

/// Names that a placeholder may use as they are.
pub open spec fn placeholder_keyword(v: Seq<char>) -> bool {
    ||| v == "clipboard"@
    ||| v == "date"@
    ||| v == "time"@
    ||| v == "datetime"@
    ||| v == "timestamp"@
    ||| starts_with(v, "argument "@)
    ||| starts_with(v, "date "@)
    ||| starts_with(v, "time "@)
    ||| starts_with(v, "datetime "@)
}

pub open spec fn plain_name(v: Seq<char>) -> bool {
    v.len() > 0 && !v.contains('=') && !v.contains('{') && !v.contains('}') && !v.contains('"')
}

/// A placeholder token, split from its optional `| raw` modifier.
pub open spec fn split_modifier(tok: Seq<char>) -> Option<(Seq<char>, bool)> {
    let bar = last_index(tok, '|');
    if bar >= 0 {
        if trim(tok.skip(bar + 1)) == "raw"@ {
            Some((trim(tok.take(bar)), true))
        } else {
            None
        }
    } else {
        Some((tok, false))
    }
}

/// What a placeholder inserts, as far as a trial render needs to know.
#[derive(Clone, Copy, Debug, PartialEq, Eq, Structural)]
pub enum PlaceholderKind {
    /// `{clipboard}`.
    Clipboard,
    /// A date or time: `date`, `time`, `datetime`, `timestamp`, possibly with a format.
    Date,
    /// An input field made from a plain name or a bare `argument`.
    Input,
    /// An `argument …` placeholder written out in full.
    Custom,
}

/// The kind of a placeholder that is used as written.
pub open spec fn keyword_kind(value: Seq<char>) -> PlaceholderKind {
    if value == "clipboard"@ {
        PlaceholderKind::Clipboard
    } else if starts_with(value, "argument "@) {
        PlaceholderKind::Custom
    } else {
        PlaceholderKind::Date
    }
}

/// The snippet placeholder that a quicklink placeholder stands for, whether
/// it is inserted raw, the new count of unnamed arguments, and its kind. A
/// bare `argument` is numbered; any other plain name becomes a named argument.
pub open spec fn placeholder_spec(tok: Seq<char>, unnamed: nat) -> Option<(Seq<char>, bool, nat, PlaceholderKind)> {
    match split_modifier(tok) {
        None => None,
        Some((value, raw)) => if value == "argument"@ {
            Some(("argument name=\"Value "@ + decimal(unnamed + 1) + "\""@, raw, (unnamed + 1) as nat, PlaceholderKind::Input))
        } else if placeholder_keyword(value) {
            Some((value, raw, unnamed, keyword_kind(value)))
        } else if plain_name(value) {
            Some(("argument name="@ + json_string_of(value), raw, unnamed, PlaceholderKind::Input))
        } else {
            None
        },
    }
}


fn has_char(v: &[char], c: char) -> (r: bool)
    ensures
        r == v@.contains(c),
{
    let i = find_char(v, c, 0);
    proof {
        if i < v.len() {
            crate::text::lemma_first_from_bounds(v@, c, 0);
            assert(v@[i as int] == c);
        } else {
            assert forall|k: int| 0 <= k < v@.len() implies v@[k] != c by {
                lemma_first_from_none_before(v@, c, 0, k);
            }
        }
    }
    i < v.len()
}

/// When the first `c` from `from` is at the end, no `c` follows `from`.
proof fn lemma_first_from_none_before(s: Seq<char>, c: char, from: int, k: int)
    requires
        0 <= from <= k < s.len(),
        first_from(s, c, from) == s.len(),
    ensures
        s[k] != c,
    decreases k - from,
{
    if from < k {
        lemma_first_from_none_before(s, c, from + 1, k);
    }
}

fn placeholder(tok: &[char], unnamed: u64) -> (r: Option<(Vec<char>, bool, u64, PlaceholderKind)>)
    requires
        unnamed < u64::MAX,
    ensures
        match placeholder_spec(tok@, unnamed as nat) {
            Some((src, raw, n, kind)) => r matches Some((s, rr, nn, kk)) && s@ == src && rr == raw && nn == n && kk == kind,
            None => r is None,
        },
{
    let (value, raw) = match find_last(tok, '|') {
        Some(bar) => {
            assert(bar < tok.len());
            let modifier = trimmed(&slice_chars(tok, bar + 1, tok.len()));
            assert(tok@.subrange(bar + 1, tok@.len() as int) == tok@.skip(bar + 1));
            if !is_word(&modifier, "raw") {
                return None;
            }
            let value = trimmed(&slice_chars(tok, 0, bar));
            assert(tok@.subrange(0, bar as int) == tok@.take(bar as int));
            (value, true)
        },
        None => (slice_chars(tok, 0, tok.len()), false),
    };
    assert(tok@.subrange(0, tok@.len() as int) == tok@);
    assert(split_modifier(tok@) == Some((value@, raw)));
    if is_word(&value, "argument") {
        let mut src = chars_of("argument name=\"Value ");
        push_decimal(&mut src, unnamed + 1);
        let quote = chars_of("\"");
        push_all(&mut src, &quote);
        return Some((src, raw, unnamed + 1, PlaceholderKind::Input));
    }
    let keyword = is_word(&value, "clipboard") || is_word(&value, "date") || is_word(&value, "time")
        || is_word(&value, "datetime") || is_word(&value, "timestamp") || has_prefix(
        &value,
        &chars_of("argument "),
    ) || has_prefix(&value, &chars_of("date ")) || has_prefix(&value, &chars_of("time "))
        || has_prefix(&value, &chars_of("datetime "));
    if keyword {
        let kind = if is_word(&value, "clipboard") {
            PlaceholderKind::Clipboard
        } else if has_prefix(&value, &chars_of("argument ")) {
            PlaceholderKind::Custom
        } else {
            PlaceholderKind::Date
        };
        return Some((value, raw, unnamed, kind));
    }
    if value.len() > 0 && !has_char(&value, '=') && !has_char(&value, '{') && !has_char(&value, '}')
        && !has_char(&value, '"') {
        let text = string_of(&value);
        let json = json_string(text.as_str());
        let mut src = chars_of("argument name=");
        push_all(&mut src, &chars_of(json.as_str()));
        return Some((src, raw, unnamed, PlaceholderKind::Input));
    }
    None
}

/// A piece of a link template: literal text, or a placeholder given by its
/// snippet placeholder text and whether its value is inserted raw.
pub enum PartModel {
    Literal(Seq<char>),
    Value(Seq<char>, bool, PlaceholderKind),
}

pub open spec fn literal_part(literal: Seq<char>) -> Seq<PartModel> {
    if literal.len() > 0 {
        seq![PartModel::Literal(literal)]
    } else {
        seq![]
    }
}

/// The input fields after a placeholder: a new input field is added once;
/// the same name used again shares it.
pub open spec fn inputs_after(inputs: Seq<Seq<char>>, src: Seq<char>, kind: PlaceholderKind) -> Seq<Seq<char>> {
    if kind == PlaceholderKind::Input && !inputs.contains(src) {
        inputs.push(src)
    } else {
        inputs
    }
}

/// The parts of the rest of a link, given the literal text read so far, the
/// count of unnamed arguments and the input fields defined so far; the
/// message of the first problem otherwise: an invalid placeholder, or more
/// than 8 input fields. `\{` stands for a literal `{`.
pub open spec fn parse_from(rest: Seq<char>, literal: Seq<char>, unnamed: nat, inputs: Seq<Seq<char>>) -> Result<Seq<PartModel>, Seq<char>>
    decreases rest.len(),
{
    if rest.len() == 0 {
        Ok(literal_part(literal))
    } else if rest.len() >= 2 && rest[0] == '\\' && rest[1] == '{' {
        parse_from(rest.skip(2), literal.push('{'), unnamed, inputs)
    } else if rest[0] == '{' {
        let after = rest.skip(1);
        match token_end_from(after, 0, false, false) {
            None => Err(INVALID_PLACEHOLDER@),
            Some(end) => {
                proof {
                    lemma_token_end_bounds(after, 0, false, false);
                }
                match placeholder_spec(trim(after.take(end)), unnamed) {
                    None => Err(INVALID_PLACEHOLDER@),
                    Some((src, raw, n, kind)) => {
                        let ins = inputs_after(inputs, src, kind);
                        if ins.len() > MAX_INPUTS {
                            Err(TOO_MANY_INPUTS@)
                        } else {
                            match parse_from(after.skip(end + 1), seq![], n, ins) {
                                Ok(ps) => Ok(literal_part(literal) + seq![PartModel::Value(src, raw, kind)] + ps),
                                Err(e) => Err(e),
                            }
                        }
                    },
                }
            },
        }
    } else {
        parse_from(rest.drop_first(), literal.push(rest[0]), unnamed, inputs)
    }
}

pub struct TemplateModel {
    pub parts: Seq<PartModel>,
    pub file: bool,
}

/// A parsed link template, or the message of why the link is invalid.
pub open spec fn parse_template(link: Seq<char>) -> Result<TemplateModel, Seq<char>> {
    if trim(link).len() == 0 || byte_len(link) > MAX_LINK_BYTES || has_control(link) {
        Err(INVALID_LINK@)
    } else {
        let t = trim(link);
        match parse_from(t, seq![], 0, seq![]) {
            Ok(parts) => Ok(TemplateModel { parts, file: absolute_path(t) }),
            Err(e) => Err(e),
        }
    }
}

enum Part {
    Literal(Vec<char>),
    Value(Vec<char>, bool, PlaceholderKind),
}

impl Part {
    spec fn model(self) -> PartModel {
        match self {
            Part::Literal(t) => PartModel::Literal(t@),
            Part::Value(src, raw, kind) => PartModel::Value(src@, raw, kind),
        }
    }
}

/// A quicklink's link, split into literal text and placeholders.
pub struct Template {
    parts: Vec<Part>,
    file: bool,
}

impl View for Template {
    type V = TemplateModel;

    closed spec fn view(&self) -> TemplateModel {
        TemplateModel { parts: self.parts@.map_values(|p: Part| p.model()), file: self.file }
    }
}

impl Template {
    pub fn parse(link: &str) -> (r: Result<Self, String>)
        ensures
            match parse_template(link@) {
                Ok(m) => r matches Ok(t) && t@ == m,
                Err(e) => r matches Err(msg) && msg@ == e,
            },
    {
        let all = chars_of(link);
        let t = trimmed(&all);
        if t.len() == 0 || utf8_exceeds(&all, MAX_LINK_BYTES) || any_control(&all) {
            return Err(INVALID_LINK.to_owned());
        }
        let file = (t.len() >= 1 && t[0] == '/') || (t.len() >= 2 && t[0] == '~' && t[1] == '/');
        let mut parts: Vec<Part> = Vec::new();
        let mut literal: Vec<char> = Vec::new();
        let mut unnamed: u64 = 0;
        let mut inputs: Vec<Vec<char>> = Vec::new();
        let mut i: usize = 0;
        assert(t@.skip(0) == t@);
        assert(char_vecs(inputs@) == Seq::<Seq<char>>::empty());
        while i < t.len()
            invariant
                t@ == trim(link@),
                !(trim(link@).len() == 0 || byte_len(link@) > MAX_LINK_BYTES || has_control(link@)),
                file == absolute_path(t@),
                i <= t@.len(),
                unnamed <= i,
                inputs@.len() <= MAX_INPUTS,
                match parse_from(t@.skip(i as int), literal@, unnamed as nat, char_vecs(inputs@)) {
                    Ok(ps) => parse_from(t@, seq![], 0, seq![]) == Ok::<Seq<PartModel>, Seq<char>>(
                        parts@.map_values(|p: Part| p.model()) + ps,
                    ),
                    Err(e) => parse_from(t@, seq![], 0, seq![]) == Err::<Seq<PartModel>, Seq<char>>(e),
                },
            decreases t.len() - i,
        {
            let ghost rest = t@.skip(i as int);
            let ghost views = parts@.map_values(|p: Part| p.model());
            let ghost ins0 = char_vecs(inputs@);
            if t[i] == '\\' && i + 1 < t.len() && t[i + 1] == '{' {
                assert(rest.skip(2) == t@.skip(i + 2));
                literal.push('{');
                i += 2;
            } else if t[i] == '{' {
                let after = slice_chars(&t, i + 1, t.len());
                assert(after@ == rest.skip(1));
                let end = match token_end(&after, 0) {
                    Some(end) => end,
                    None => {
                        assert(!(rest.len() >= 2 && rest[0] == '\\' && rest[1] == '{'));
                        assert(parse_from(rest, literal@, unnamed as nat, ins0) == Err::<Seq<PartModel>, Seq<char>>(INVALID_PLACEHOLDER@));
                        return Err(INVALID_PLACEHOLDER.to_owned());
                    },
                };
                let token = trimmed(&slice_chars(&after, 0, end));
                assert(after@.subrange(0, end as int) == after@.take(end as int));
                assert(token@ == trim(after@.take(end as int)));
                let (src, raw, next_unnamed, kind) = match placeholder(&token, unnamed) {
                    Some(found) => found,
                    None => {
                        assert(!(rest.len() >= 2 && rest[0] == '\\' && rest[1] == '{'));
                        assert(token_end_from(after@, 0, false, false) == Some(end as int));
                        assert(parse_from(rest, literal@, unnamed as nat, ins0) == Err::<Seq<PartModel>, Seq<char>>(INVALID_PLACEHOLDER@));
                        return Err(INVALID_PLACEHOLDER.to_owned());
                    },
                };
                assert(placeholder_spec(token@, unnamed as nat) == Some((src@, raw, next_unnamed as nat, kind)));
                assert(!(rest.len() >= 2 && rest[0] == '\\' && rest[1] == '{'));
                assert(token_end_from(after@, 0, false, false) == Some(end as int));
                if matches!(kind, PlaceholderKind::Input) && !contains_chars(&inputs, &src) {
                    let mut copy: Vec<char> = Vec::new();
                    push_all(&mut copy, &src);
                    inputs.push(copy);
                    assert(char_vecs(inputs@) == ins0.push(src@));
                }
                let ghost ins1 = char_vecs(inputs@);
                assert(ins1 == inputs_after(ins0, src@, kind));
                if inputs.len() > MAX_INPUTS {
                    assert(parse_from(rest, literal@, unnamed as nat, ins0) == Err::<Seq<PartModel>, Seq<char>>(TOO_MANY_INPUTS@));
                    return Err(TOO_MANY_INPUTS.to_owned());
                }
                assert(after@.skip(end + 1) == t@.skip(i + 1 + end + 1));
                let ghost lit = literal_part(literal@);
                let ghost old_literal = literal@;
                let ghost old_unnamed = unnamed;
                assert(parse_from(rest, old_literal, old_unnamed as nat, ins0) == match parse_from(t@.skip(i + 1 + end + 1), seq![], next_unnamed as nat, ins1) {
                    Ok(ps) => Ok::<Seq<PartModel>, Seq<char>>(lit + seq![PartModel::Value(src@, raw, kind)] + ps),
                    Err(e) => Err::<Seq<PartModel>, Seq<char>>(e),
                });
                if literal.len() > 0 {
                    let done = literal;
                    literal = Vec::new();
                    parts.push(Part::Literal(done));
                    assert(parts@.map_values(|p: Part| p.model()) == views + lit);
                } else {
                    assert(views + lit == views);
                }
                let ghost views2 = parts@.map_values(|p: Part| p.model());
                let ghost src_view = src@;
                parts.push(Part::Value(src, raw, kind));
                assert(parts@.map_values(|p: Part| p.model()) == views2 + seq![PartModel::Value(src_view, raw, kind)]);
                unnamed = next_unnamed;
                i = i + 1 + end + 1;
                proof {
                    assert(parts@.map_values(|p: Part| p.model()) == views + lit + seq![PartModel::Value(src_view, raw, kind)]);
                    assert(literal@ == Seq::<char>::empty());
                    match parse_from(t@.skip(i as int), seq![], next_unnamed as nat, ins1) {
                        Ok(ps) => {
                            assert(views + (lit + seq![PartModel::Value(src_view, raw, kind)] + ps) == (views + lit + seq![PartModel::Value(src_view, raw, kind)]) + ps);
                        },
                        Err(e) => {
                            assert(parse_from(rest, old_literal, old_unnamed as nat, ins0) == Err::<Seq<PartModel>, Seq<char>>(e));
                        },
                    }
                }
            } else {
                assert(rest.drop_first() == t@.skip(i + 1));
                literal.push(t[i]);
                i += 1;
            }
        }
        assert(t@.skip(i as int) == Seq::<char>::empty());
        if literal.len() > 0 {
            let ghost views = parts@.map_values(|p: Part| p.model());
            parts.push(Part::Literal(literal));
            assert(parts@.map_values(|p: Part| p.model()) == views + literal_part(literal@));
        } else {
            assert(parts@.map_values(|p: Part| p.model()) + literal_part(literal@) == parts@.map_values(|p: Part| p.model()));
        }
        Ok(Template { parts, file })
    }
}

/// Whether `item` is among the character sequences of `list`.
fn contains_chars(list: &Vec<Vec<char>>, item: &[char]) -> (r: bool)
    ensures
        r == char_vecs(list@).contains(item@),
{
    let mut j: usize = 0;
    while j < list.len()
        invariant
            j <= list@.len(),
            forall|k: int| 0 <= k < j ==> char_vecs(list@)[k] != item@,
        decreases list.len() - j,
    {
        assert(char_vecs(list@)[j as int] == list@[j as int]@);
        if same_chars(&list[j], item) {
            assert(char_vecs(list@)[j as int] == item@);
            return true;
        }
        j += 1;
    }
    false
}


/// UTF-8 byte counts add up over concatenation.
pub proof fn lemma_byte_len_concat(a: Seq<char>, b: Seq<char>)
    ensures
        byte_len(a + b) == byte_len(a) + byte_len(b),
    decreases a.len(),
{
    if a.len() > 0 {
        lemma_byte_len_concat(a.drop_first(), b);
        assert((a + b).drop_first() == a.drop_first() + b);
        assert((a + b)[0] == a[0]);
    } else {
        assert(a + b == b);
    }
}

/// A placeholder that inserts the clipboard.
pub open spec fn clipboard_part(p: PartModel) -> bool {
    match p {
        PartModel::Value(src, _, _) => src == "clipboard"@,
        PartModel::Literal(_) => false,
    }
}

/// The number of placeholders among the first `n` parts.
pub open spec fn values_before(parts: Seq<PartModel>, n: int) -> nat
    decreases n,
{
    if n <= 0 {
        0
    } else {
        values_before(parts, n - 1) + if parts[n - 1] is Value {
            1nat
        } else {
            0nat
        }
    }
}

/// The snippet placeholders of the first `n` parts, in order.
pub open spec fn value_sources(parts: Seq<PartModel>, n: int) -> Seq<Seq<char>>
    decreases n,
{
    if n <= 0 {
        seq![]
    } else {
        value_sources(parts, n - 1) + match parts[n - 1] {
            PartModel::Value(src, _, _) => seq![src],
            PartModel::Literal(_) => seq![],
        }
    }
}

/// The text of one part: a literal as it is, a placeholder's expansion raw
/// for `| raw` placeholders and file paths, percent-encoded otherwise.
pub open spec fn part_text(p: PartModel, expansion: Seq<char>, file: bool) -> Seq<char> {
    match p {
        PartModel::Literal(t) => t,
        PartModel::Value(_, raw, _) => if raw || file {
            expansion
        } else {
            percent_encoded(encode_utf8(expansion))
        },
    }
}

/// The first `n` parts expanded, the k-th placeholder by `expansions[k]`.
pub open spec fn expanded(t: TemplateModel, expansions: Seq<Seq<char>>, n: int) -> Seq<char>
    decreases n,
{
    if n <= 0 {
        seq![]
    } else {
        expanded(t, expansions, n - 1) + part_text(
            t.parts[n - 1],
            expansions[values_before(t.parts, n - 1) as int],
            t.file,
        )
    }
}

/// The link a template expands to: an error when it exceeds 16 KB, and
/// otherwise the destination of the expanded text.
pub open spec fn render_spec(t: TemplateModel, expansions: Seq<Seq<char>>) -> Result<Seq<char>, Seq<char>> {
    let full = expanded(t, expansions, t.parts.len() as int);
    if byte_len(full) > MAX_LINK_BYTES {
        Err(LINK_TOO_LONG@)
    } else {
        match destination_spec(full) {
            Some(d) => Ok(d),
            None => Err(INVALID_DESTINATION@),
        }
    }
}

pub open spec fn string_views(v: Seq<String>) -> Seq<Seq<char>> {
    v.map_values(|s: String| s@)
}

proof fn lemma_expanded_grows(t: TemplateModel, expansions: Seq<Seq<char>>, j: int, n: int)
    requires
        0 <= j <= n,
    ensures
        byte_len(expanded(t, expansions, j)) <= byte_len(expanded(t, expansions, n)),
    decreases n - j,
{
    if j < n {
        lemma_expanded_grows(t, expansions, j, n - 1);
        lemma_byte_len_concat(
            expanded(t, expansions, n - 1),
            part_text(t.parts[n - 1], expansions[values_before(t.parts, n - 1) as int], t.file),
        );
    }
}

impl Template {
    /// The number of placeholders.
    pub fn placeholder_count(&self) -> (n: usize)
        ensures
            n == values_before(self@.parts, self@.parts.len() as int),
    {
        let mut n: usize = 0;
        let mut i: usize = 0;
        while i < self.parts.len()
            invariant
                i <= self.parts@.len(),
                n == values_before(self@.parts, i as int),
                n <= i,
            decreases self.parts.len() - i,
        {
            if let Part::Value(_, _, _) = &self.parts[i] {
                n += 1;
            }
            i += 1;
        }
        n
    }

    /// The snippet placeholder that each placeholder stands for, in order.
    pub fn sources(&self) -> (r: Vec<String>)
        ensures
            r@.map_values(|s: String| s@) == value_sources(self@.parts, self@.parts.len() as int),
    {
        let mut r: Vec<String> = Vec::new();
        let mut i: usize = 0;
        while i < self.parts.len()
            invariant
                i <= self.parts@.len(),
                r@.map_values(|s: String| s@) == value_sources(self@.parts, i as int),
            decreases self.parts.len() - i,
        {
            let ghost before = r@;
            if let Part::Value(src, _, _) = &self.parts[i] {
                r.push(string_of(src));
                assert(r@.map_values(|s: String| s@) == before.map_values(|s: String| s@).push(src@));
            }
            i += 1;
        }
        r
    }

    /// The values of a trial render, when every placeholder has one.
    fn trial_values(&self) -> (r: Option<Vec<String>>)
        ensures
            match trial_values(self@.parts, self@.parts.len() as int) {
                Some(v) => r matches Some(x) && string_views(x@) == v && x@.len() == values_before(
                    self@.parts,
                    self@.parts.len() as int,
                ),
                None => r is None,
            },
    {
        let mut values: Vec<String> = Vec::new();
        let mut i: usize = 0;
        while i < self.parts.len()
            invariant
                i <= self.parts@.len(),
                trial_values(self@.parts, i as int) == Some(string_views(values@)),
            decreases self.parts.len() - i,
        {
            let ghost before = values@;
            if let Part::Value(_, _, kind) = &self.parts[i] {
                let sample = match kind {
                    PlaceholderKind::Clipboard => TRIAL_CLIPBOARD,
                    PlaceholderKind::Date => TRIAL_DATE,
                    PlaceholderKind::Input => TRIAL_INPUT,
                    PlaceholderKind::Custom => {
                        proof {
                            lemma_trial_values_none_stays(self@.parts, i + 1, self@.parts.len() as int);
                        }
                        return None;
                    },
                };
                values.push(sample.to_owned());
                assert(string_views(values@) == string_views(before).push(sample@));
            }
            i += 1;
        }
        proof {
            lemma_trial_values_len(self@.parts, self@.parts.len() as int);
        }
        Some(values)
    }

    /// Whether some placeholder inserts the clipboard.
    pub fn uses_clipboard(&self) -> (r: bool)
        ensures
            r == exists|k: int| 0 <= k < self@.parts.len() && clipboard_part(#[trigger] self@.parts[k]),
    {
        let mut i: usize = 0;
        while i < self.parts.len()
            invariant
                i <= self.parts@.len(),
                forall|k: int| 0 <= k < i ==> !clipboard_part(#[trigger] self@.parts[k]),
            decreases self.parts.len() - i,
        {
            if let Part::Value(src, _, _) = &self.parts[i] {
                if is_word(src, "clipboard") {
                    assert(clipboard_part(self@.parts[i as int]));
                    return true;
                }
            }
            i += 1;
        }
        false
    }

    /// Expands the template, the k-th placeholder to `expansions[k]` (as the
    /// snippet engine renders it), and checks the resulting destination.
    pub fn render(&self, expansions: &[String]) -> (r: Result<String, String>)
        requires
            expansions@.len() == values_before(self@.parts, self@.parts.len() as int),
        ensures
            match render_spec(self@, string_views(expansions@)) {
                Ok(d) => r matches Ok(s) && s@ == d,
                Err(e) => r matches Err(msg) && msg@ == e,
            },
    {
        let ghost exps = string_views(expansions@);
        let mut result: Vec<char> = Vec::new();
        let mut result_len: usize = 0;
        let mut placeholders: usize = 0;
        let mut i: usize = 0;
        while i < self.parts.len()
            invariant
                exps == string_views(expansions@),
                expansions@.len() == values_before(self@.parts, self@.parts.len() as int),
                i <= self.parts@.len(),
                placeholders == values_before(self@.parts, i as int),
                result@ == expanded(self@, exps, i as int),
                result_len == byte_len(result@),
                result_len <= MAX_LINK_BYTES,
            decreases self.parts.len() - i,
        {
            proof {
                lemma_values_before_monotone(self@.parts, i + 1, self@.parts.len() as int);
            }
            let text: Vec<char> = match &self.parts[i] {
                Part::Literal(t) => {
                    let mut copy: Vec<char> = Vec::new();
                    push_all(&mut copy, t);
                    copy
                },
                Part::Value(_, raw, _) => {
                    let expansion = chars_of(expansions[placeholders].as_str());
                    assert(expansion@ == exps[placeholders as int]);
                    placeholders += 1;
                    if *raw || self.file {
                        expansion
                    } else {
                        percent_encode(&expansion)
                    }
                },
            };
            assert(text@ == part_text(self@.parts[i as int], exps[values_before(self@.parts, i as int) as int], self@.file));
            proof {
                lemma_byte_len_concat(result@, text@);
            }
            match utf8_len_within(&text, MAX_LINK_BYTES - result_len) {
                Some(n) => {
                    result_len = result_len + n;
                },
                None => {
                    proof {
                        lemma_expanded_grows(self@, exps, i + 1, self@.parts.len() as int);
                    }
                    return Err(LINK_TOO_LONG.to_owned());
                },
            }
            push_all(&mut result, &text);
            i += 1;
        }
        let full = string_of(&result);
        destination(full.as_str())
    }
}

proof fn lemma_values_before_monotone(parts: Seq<PartModel>, j: int, n: int)
    requires
        0 <= j <= n,
    ensures
        values_before(parts, j) <= values_before(parts, n),
    decreases n - j,
{
    if j < n {
        lemma_values_before_monotone(parts, j, n - 1);
    }
}


/// A named link or path that the launcher can open, optionally with a
/// specific application.
#[derive(Clone, Debug, PartialEq, Eq)]
pub struct Quicklink {
    pub id: String,
    pub name: String,
    pub link: String,
    pub open_with: String,
}

/// What is wrong with a quicklink, checked in this order: its ID, its name,
/// its target application, then its link, which must parse and, when it
/// has no placeholders, lead to a valid destination; `None` when it is valid.
pub open spec fn link_problem(id: Seq<char>, name: Seq<char>, link: Seq<char>, open_with: Seq<char>) -> Option<Seq<char>> {
    if id.len() == 0 || byte_len(id) > 100 {
        Some(INVALID_ID@)
    } else if trim(name).len() == 0 || name.len() > 120 {
        Some(INVALID_NAME@)
    } else if byte_len(open_with) > 1024 || has_control(open_with) {
        Some(INVALID_TARGET@)
    } else {
        target_problem(link)
    }
}

/// The value a placeholder takes in a trial render: a sample clipboard
/// link, a fixed date, or `value` for an input field; `None` for a fully
/// written `argument …` placeholder, whose default and choices belong to the
/// snippet engine.
pub open spec fn trial_value(kind: PlaceholderKind) -> Option<Seq<char>> {
    match kind {
        PlaceholderKind::Clipboard => Some(TRIAL_CLIPBOARD@),
        PlaceholderKind::Date => Some(TRIAL_DATE@),
        PlaceholderKind::Input => Some(TRIAL_INPUT@),
        PlaceholderKind::Custom => None,
    }
}

/// The trial values of the placeholders among the first `n` parts, in
/// order, when each has one.
pub open spec fn trial_values(parts: Seq<PartModel>, n: int) -> Option<Seq<Seq<char>>>
    decreases n,
{
    if n <= 0 {
        Some(seq![])
    } else {
        match trial_values(parts, n - 1) {
            None => None,
            Some(v) => match parts[n - 1] {
                PartModel::Literal(_) => Some(v),
                PartModel::Value(_, _, kind) => match trial_value(kind) {
                    Some(x) => Some(v.push(x)),
                    None => None,
                },
            },
        }
    }
}

proof fn lemma_trial_values_len(parts: Seq<PartModel>, n: int)
    requires
        trial_values(parts, n) is Some,
    ensures
        trial_values(parts, n)->0.len() == values_before(parts, n),
    decreases n,
{
    if n > 0 {
        lemma_trial_values_len(parts, n - 1);
    }
}

proof fn lemma_trial_values_none_stays(parts: Seq<PartModel>, j: int, n: int)
    requires
        0 <= j <= n,
        trial_values(parts, j) is None,
    ensures
        trial_values(parts, n) is None,
    decreases n - j,
{
    if j < n {
        lemma_trial_values_none_stays(parts, j, n - 1);
    }
}

/// What is wrong with a link: it does not parse as a template, or a trial
/// render with sample values fails (too long, or not a valid destination).
#[verifier::opaque]
pub open spec fn target_problem(link: Seq<char>) -> Option<Seq<char>> {
    match parse_template(link) {
        Err(e) => Some(e),
        Ok(t) => match trial_values(t.parts, t.parts.len() as int) {
            Some(values) => match render_spec(t, values) {
                Err(e) => Some(e),
                Ok(_) => None,
            },
            None => None,
        },
    }
}

pub open spec fn quicklink_problem(q: Quicklink) -> Option<Seq<char>> {
    link_problem(q.id@, q.name@, q.link@, q.open_with@)
}

impl Quicklink {
    pub fn validate(&self) -> (r: Result<(), String>)
        ensures
            match quicklink_problem(*self) {
                Some(e) => r matches Err(msg) && msg@ == e,
                None => r is Ok,
            },
    {
        let id = chars_of(self.id.as_str());
        if id.len() == 0 || utf8_exceeds(&id, 100) {
            return Err(INVALID_ID.to_owned());
        }
        let name = chars_of(self.name.as_str());
        if trimmed(&name).len() == 0 || name.len() > 120 {
            return Err(INVALID_NAME.to_owned());
        }
        let open_with = chars_of(self.open_with.as_str());
        if utf8_exceeds(&open_with, 1024) || any_control(&open_with) {
            return Err(INVALID_TARGET.to_owned());
        }
        proof {
            reveal(target_problem);
        }
        match Template::parse(self.link.as_str()) {
            Ok(template) => match template.trial_values() {
                Some(values) => match template.render(&values) {
                    Ok(_) => Ok(()),
                    Err(e) => Err(e),
                },
                None => Ok(()),
            },
            Err(e) => Err(e),
        }
    }
}

/// The fields of a quicklink.
pub struct LinkModel {
    pub id: Seq<char>,
    pub name: Seq<char>,
    pub link: Seq<char>,
    pub open_with: Seq<char>,
}

pub open spec fn link_model(q: Quicklink) -> LinkModel {
    LinkModel { id: q.id@, name: q.name@, link: q.link@, open_with: q.open_with@ }
}

pub open spec fn link_models(links: Seq<Quicklink>) -> Seq<LinkModel> {
    links.map_values(|q: Quicklink| link_model(q))
}

pub open spec fn model_problem(m: LinkModel) -> Option<Seq<char>> {
    link_problem(m.id, m.name, m.link, m.open_with)
}

/// The problem of the first `n` links: the first invalid link's problem, or
/// a duplicate ID.
pub open spec fn links_problem_upto(links: Seq<LinkModel>, n: int) -> Option<Seq<char>>
    decreases n,
{
    if n <= 0 {
        None
    } else {
        match links_problem_upto(links, n - 1) {
            Some(e) => Some(e),
            None => match model_problem(links[n - 1]) {
                Some(e) => Some(e),
                None => if exists|j: int| 0 <= j < n - 1 && (#[trigger] links[j]).id == links[n - 1].id {
                    Some(DUPLICATE_ID@)
                } else {
                    None
                },
            },
        }
    }
}

/// A list of quicklinks can be saved when it has at most 200 valid links
/// with distinct IDs.
pub open spec fn links_problem(links: Seq<LinkModel>) -> Option<Seq<char>> {
    if links.len() > MAX_LINKS {
        Some(TOO_MANY_LINKS@)
    } else {
        links_problem_upto(links, links.len() as int)
    }
}

fn same_string(a: &String, b: &String) -> (r: bool)
    ensures
        r == (a@ == b@),
{
    same_chars(&chars_of(a.as_str()), &chars_of(b.as_str()))
}

proof fn lemma_links_problem_stays(links: Seq<LinkModel>, j: int, n: int)
    requires
        0 <= j <= n,
        links_problem_upto(links, j) is Some,
    ensures
        links_problem_upto(links, n) == links_problem_upto(links, j),
    decreases n - j,
{
    if j < n {
        lemma_links_problem_stays(links, j, n - 1);
    }
}

/// Checks a whole list of quicklinks before it is saved.
pub fn validate(links: &[Quicklink]) -> (r: Result<(), String>)
    ensures
        match links_problem(link_models(links@)) {
            Some(e) => r matches Err(msg) && msg@ == e,
            None => r is Ok,
        },
{
    let ghost ms = link_models(links@);
    if links.len() > MAX_LINKS {
        return Err(TOO_MANY_LINKS.to_owned());
    }
    let mut i: usize = 0;
    while i < links.len()
        invariant
            ms == link_models(links@),
            i <= links@.len() <= MAX_LINKS,
            links_problem_upto(ms, i as int) is None,
        decreases links.len() - i,
    {
        assert(ms[i as int] == link_model(links@[i as int]));
        match links[i].validate() {
            Ok(()) => {},
            Err(e) => {
                proof {
                    lemma_links_problem_stays(ms, i + 1, ms.len() as int);
                }
                return Err(e);
            },
        }
        let mut j: usize = 0;
        while j < i
            invariant
                ms == link_models(links@),
                i < links@.len() <= MAX_LINKS,
                j <= i,
                model_problem(ms[i as int]) is None,
                links_problem_upto(ms, i as int) is None,
                forall|k: int| 0 <= k < j ==> (#[trigger] ms[k]).id != ms[i as int].id,
            decreases i - j,
        {
            assert(ms[j as int] == link_model(links@[j as int]));
            if same_string(&links[j].id, &links[i].id) {
                proof {
                    assert(ms[j as int].id == ms[i as int].id);
                    assert(links_problem_upto(ms, i + 1) == Some(DUPLICATE_ID@));
                    lemma_links_problem_stays(ms, i + 1, ms.len() as int);
                }
                return Err(DUPLICATE_ID.to_owned());
            }
            j += 1;
        }
        i += 1;
    }
    Ok(())
}

/// `str::to_lowercase`: the full Unicode lowercase form of a string.
pub uninterp spec fn str_lowercase_of(s: Seq<char>) -> Seq<char>;

/// Calls `str::to_lowercase`.
#[verifier::external_body]
fn str_lowercase(s: &str) -> (r: String)
    ensures
        r@ == str_lowercase_of(s@),
{
    s.to_lowercase()
}

/// How well a lowercased name and address match a lowercased query: every
/// word of the query must occur in the name or the address; then 0 when the
/// name is the query, 1 when it starts with it, 2 when it contains it, 3
/// otherwise.
pub open spec fn lowered_rank(q: Seq<char>, name: Seq<char>, address: Seq<char>) -> Option<int> {
    let terms = words(q);
    if forall|k: int| 0 <= k < terms.len() ==> contains(name, #[trigger] terms[k]) || contains(address, terms[k]) {
        Some(
            if name == q {
                0
            } else if starts_with(name, q) {
                1
            } else if contains(name, q) {
                2
            } else {
                3
            },
        )
    } else {
        None
    }
}

/// How well a quicklink matches a lowercased query, over its name and link
/// as `str::to_lowercase` gives them.
pub open spec fn quicklink_rank(q: Seq<char>, link: Quicklink) -> Option<int> {
    lowered_rank(q, str_lowercase_of(link.name@), str_lowercase_of(link.link@))
}

pub open spec fn lowered_rank_of(q: Seq<char>, name: Seq<char>, address: Seq<char>) -> int {
    match lowered_rank(q, name, address) {
        Some(r) => r,
        None => 0,
    }
}

/// `r` lists exactly the matching entries (by lowercased names and
/// addresses), by rank and then by position.
pub open spec fn lowered_order(r: Seq<usize>, names: Seq<Seq<char>>, addresses: Seq<Seq<char>>, q: Seq<char>) -> bool {
    &&& forall|k: int| 0 <= k < r.len() ==> #[trigger] r[k] < names.len() && lowered_rank(q, names[r[k] as int], addresses[r[k] as int]) is Some
    &&& forall|i: int| 0 <= i < names.len() && (lowered_rank(q, #[trigger] names[i], addresses[i]) is Some) ==> r.contains(i as usize)
    &&& forall|a: int, b: int| 0 <= a < b < r.len() ==> lowered_rank_of(q, names[#[trigger] r[a] as int], addresses[r[a] as int]) < lowered_rank_of(q, names[#[trigger] r[b] as int], addresses[r[b] as int]) || (lowered_rank_of(q, names[r[a] as int], addresses[r[a] as int]) == lowered_rank_of(q, names[r[b] as int], addresses[r[b] as int]) && r[a] < r[b])
}

pub open spec fn lowered_names(links: Seq<Quicklink>) -> Seq<Seq<char>> {
    links.map_values(|l: Quicklink| str_lowercase_of(l.name@))
}

pub open spec fn lowered_links(links: Seq<Quicklink>) -> Seq<Seq<char>> {
    links.map_values(|l: Quicklink| str_lowercase_of(l.link@))
}

/// `r` lists exactly the matching quicklinks, by rank and then by position.
pub open spec fn is_quicklink_order(r: Seq<usize>, links: Seq<Quicklink>, q: Seq<char>) -> bool {
    lowered_order(r, lowered_names(links), lowered_links(links), q)
}

pub open spec fn rank_pair_before(x: (usize, u8), y: (usize, u8)) -> bool {
    x.1 < y.1 || (x.1 == y.1 && x.0 < y.0)
}

fn insert_by_rank(sorted: &mut Vec<(usize, u8)>, index: usize, rank: u8)
    requires
        forall|k: int| 0 <= k < old(sorted)@.len() ==> (#[trigger] old(sorted)@[k]).0 < index,
        forall|a: int, b: int| 0 <= a < b < old(sorted)@.len() ==> rank_pair_before(#[trigger] old(sorted)@[a], #[trigger] old(sorted)@[b]),
    ensures
        exists|p: int| 0 <= p <= old(sorted)@.len() && final(sorted)@ == old(sorted)@.insert(p, (index, rank)),
        forall|a: int, b: int| 0 <= a < b < final(sorted)@.len() ==> rank_pair_before(#[trigger] final(sorted)@[a], #[trigger] final(sorted)@[b]),
{
    let ghost before = sorted@;
    let mut p: usize = 0;
    while p < sorted.len() && sorted[p].1 <= rank
        invariant
            sorted@ == before,
            p <= sorted@.len(),
            forall|k: int| 0 <= k < p ==> (#[trigger] sorted@[k]).1 <= rank,
        decreases sorted.len() - p,
    {
        p += 1;
    }
    proof {
        assert forall|k: int| p <= k < before.len() implies (#[trigger] before[k]).1 > rank by {
            if k > p {
                assert(rank_pair_before(before[p as int], before[k]));
            }
        }
    }
    sorted.insert(p, (index, rank));
    let ghost after = before.insert(p as int, (index, rank));
    assert(sorted@ == after);
    assert forall|a: int, b: int| 0 <= a < b < after.len() implies rank_pair_before(#[trigger] after[a], #[trigger] after[b]) by {
        if a < p && b < p {
            assert(rank_pair_before(before[a], before[b]));
        } else if a < p && b == p {
        } else if a < p && b > p {
            assert(rank_pair_before(before[a], before[b - 1]));
        } else if a == p {
        } else {
            assert(rank_pair_before(before[a - 1], before[b - 1]));
        }
    }
}

fn terms_occur(name: &[char], address: &[char], terms: &Vec<Vec<char>>) -> (r: bool)
    ensures
        r == forall|k: int| 0 <= k < terms@.len() ==> contains(name@, #[trigger] char_vecs(terms@)[k]) || contains(address@, char_vecs(terms@)[k]),
{
    let mut k: usize = 0;
    while k < terms.len()
        invariant
            k <= terms@.len(),
            forall|m: int| 0 <= m < k ==> contains(name@, #[trigger] char_vecs(terms@)[m]) || contains(address@, char_vecs(terms@)[m]),
        decreases terms.len() - k,
    {
        assert(char_vecs(terms@)[k as int] == terms@[k as int]@);
        if !(has_infix(name, &terms[k]) || has_infix(address, &terms[k])) {
            return false;
        }
        k += 1;
    }
    true
}

/// The quicklinks matching `query`, best first.
pub fn matching(links: &[Quicklink], query: &str) -> (r: Vec<usize>)
    ensures
        is_quicklink_order(r@, links@, str_lowercase_of(trim(query@))),
{
    let trimmed_query = string_of(&trimmed(&chars_of(query)));
    let q = str_lowercase(trimmed_query.as_str());
    let mut names: Vec<String> = Vec::new();
    let mut addresses: Vec<String> = Vec::new();
    let mut i: usize = 0;
    while i < links.len()
        invariant
            i <= links@.len(),
            names@.map_values(|n: String| n@) == lowered_names(links@.take(i as int)),
            addresses@.map_values(|n: String| n@) == lowered_links(links@.take(i as int)),
        decreases links.len() - i,
    {
        let ghost nb = names@;
        let ghost ab = addresses@;
        let name = str_lowercase(links[i].name.as_str());
        let address = str_lowercase(links[i].link.as_str());
        let ghost nv = name@;
        let ghost av = address@;
        names.push(name);
        addresses.push(address);
        assert(names@.map_values(|n: String| n@) == nb.map_values(|n: String| n@).push(nv));
        assert(addresses@.map_values(|n: String| n@) == ab.map_values(|n: String| n@).push(av));
        assert(links@.take(i + 1) == links@.take(i as int).push(links@[i as int]));
        assert(lowered_names(links@.take(i + 1)) == lowered_names(links@.take(i as int)).push(nv));
        assert(lowered_links(links@.take(i + 1)) == lowered_links(links@.take(i as int)).push(av));
        i += 1;
    }
    assert(links@.take(links@.len() as int) == links@);
    matching_lowered(q.as_str(), &names, &addresses)
}

/// The entries matching an already lowercased and trimmed query, given the
/// lowercased names and addresses, best first.
pub fn matching_lowered(query: &str, names: &[String], addresses: &[String]) -> (r: Vec<usize>)
    requires
        names@.len() == addresses@.len(),
    ensures
        lowered_order(r@, names@.map_values(|n: String| n@), addresses@.map_values(|n: String| n@), query@),
{
    let q = chars_of(query);
    let ghost qs = query@;
    let ghost ns = names@.map_values(|n: String| n@);
    let ghost ads = addresses@.map_values(|n: String| n@);
    let terms = split_words(&q);
    let mut sorted: Vec<(usize, u8)> = Vec::new();
    let mut i: usize = 0;
    while i < names.len()
        invariant
            q@ == qs,
            ns == names@.map_values(|n: String| n@),
            ads == addresses@.map_values(|n: String| n@),
            names@.len() == addresses@.len(),
            char_vecs(terms@) == words(qs),
            i <= names@.len(),
            forall|k: int| 0 <= k < sorted@.len() ==> (#[trigger] sorted@[k]).0 < i && lowered_rank(qs, ns[sorted@[k].0 as int], ads[sorted@[k].0 as int]) == Some(sorted@[k].1 as int),
            forall|j: int| 0 <= j < i && (lowered_rank(qs, #[trigger] ns[j], ads[j]) is Some) ==> exists|k: int| 0 <= k < sorted@.len() && sorted@[k].0 == j,
            forall|a: int, b: int| 0 <= a < b < sorted@.len() ==> rank_pair_before(#[trigger] sorted@[a], #[trigger] sorted@[b]),
        decreases names.len() - i,
    {
        let name = chars_of(names[i].as_str());
        let address = chars_of(addresses[i].as_str());
        assert(name@ == ns[i as int] && address@ == ads[i as int]);
        if terms_occur(&name, &address, &terms) {
            let rank: u8 = if same_chars(&name, &q) {
                0
            } else if has_prefix(&name, &q) {
                1
            } else if has_infix(&name, &q) {
                2
            } else {
                3
            };
            assert(lowered_rank(qs, ns[i as int], ads[i as int]) == Some(rank as int));
            let ghost before = sorted@;
            insert_by_rank(&mut sorted, i, rank);
            let ghost p = choose|p: int| 0 <= p <= before.len() && sorted@ == before.insert(p, (i, rank));
            assert(sorted@ == before.insert(p, (i, rank)));
            assert forall|k: int| 0 <= k < sorted@.len() implies (#[trigger] sorted@[k]).0 < i + 1 && lowered_rank(qs, ns[sorted@[k].0 as int], ads[sorted@[k].0 as int]) == Some(sorted@[k].1 as int) by {
                if k < p {
                    assert(sorted@[k] == before[k]);
                } else if k > p {
                    assert(sorted@[k] == before[k - 1]);
                }
            }
            assert forall|j: int| 0 <= j < i + 1 && (lowered_rank(qs, #[trigger] ns[j], ads[j]) is Some) implies exists|k: int| 0 <= k < sorted@.len() && sorted@[k].0 == j by {
                if j == i {
                    assert(sorted@[p].0 == j);
                } else {
                    let k = choose|k: int| 0 <= k < before.len() && before[k].0 == j;
                    if k < p {
                        assert(sorted@[k].0 == j);
                    } else {
                        assert(sorted@[k + 1].0 == j);
                    }
                }
            }
        } else {
            assert(lowered_rank(qs, ns[i as int], ads[i as int]) is None);
        }
        i += 1;
    }
    let mut ranked: Vec<usize> = Vec::new();
    let mut k: usize = 0;
    while k < sorted.len()
        invariant
            k <= sorted@.len(),
            ranked@ == sorted@.take(k as int).map_values(|e: (usize, u8)| e.0),
        decreases sorted.len() - k,
    {
        ranked.push(sorted[k].0);
        k += 1;
        assert(sorted@.take(k as int).map_values(|e: (usize, u8)| e.0) == sorted@.take(k - 1).map_values(|e: (usize, u8)| e.0).push(sorted@[k - 1].0));
    }
    assert(sorted@.take(sorted@.len() as int) == sorted@);
    assert forall|j: int| 0 <= j < ns.len() && (lowered_rank(qs, #[trigger] ns[j], ads[j]) is Some) implies ranked@.contains(j as usize) by {
        let k = choose|k: int| 0 <= k < sorted@.len() && sorted@[k].0 == j;
        assert(ranked@[k] == j as usize);
    }
    ranked
}


pub const TOO_MANY_IMPORTED: &'static str = "Import contains more than 200 links.";

pub const IMPORT_TOO_LARGE: &'static str = "Import file exceeds 4 MB.";
pub const INVALID_IMPORT: &'static str = "Choose a Quicklinks JSON export from Raycast.";

/// An export is read only when it takes at most 4 MB.
pub fn check_import_size(bytes: usize) -> (r: Result<(), String>)
    ensures
        bytes <= MAX_IMPORT_BYTES ==> r is Ok,
        bytes > MAX_IMPORT_BYTES ==> (r matches Err(e) && e@ == IMPORT_TOO_LARGE@),
{
    if bytes > MAX_IMPORT_BYTES {
        Err(IMPORT_TOO_LARGE.to_owned())
    } else {
        Ok(())
    }
}

/// The JSON array `[a, b, c]` that `serde_json::to_vec` makes of three strings.
pub uninterp spec fn json_triple_of(a: Seq<char>, b: Seq<char>, c: Seq<char>) -> Seq<u8>;

/// Calls `serde_json::to_vec` on a tuple of three strings; serializing
/// strings into memory does not fail.
#[verifier::external_body]
fn json_triple(a: &str, b: &str, c: &str) -> (r: Vec<u8>)
    ensures
        r@ == json_triple_of(a@, b@, c@),
{
    match serde_json::to_vec(&(a, b, c)) {
        Ok(bytes) => bytes,
        Err(_) => Vec::new(),
    }
}

/// The SHA-256 digest of a byte sequence.
pub uninterp spec fn sha256_of(data: Seq<u8>) -> Seq<u8>;

/// Calls `sha2::Sha256::digest` and copies the digest's bytes out.
#[verifier::external_body]
fn sha256(data: &[u8]) -> (r: Vec<u8>)
    ensures
        r@ == sha256_of(data@),
{
    <sha2::Sha256 as sha2::Digest>::digest(data).to_vec()
}

pub open spec fn lower_hex_digit(n: u8) -> char {
    if n < 10 {
        ((48 + n) as u8) as char
    } else {
        ((87 + n) as u8) as char
    }
}

/// Bytes written as two lowercase hexadecimal digits each, high digit first.
pub open spec fn lower_hex(bytes: Seq<u8>) -> Seq<char>
    decreases bytes.len(),
{
    if bytes.len() == 0 {
        seq![]
    } else {
        let b = bytes.last();
        lower_hex(bytes.drop_last()) + seq![lower_hex_digit(b / 16), lower_hex_digit(b % 16)]
    }
}

fn push_lower_hex(out: &mut Vec<char>, bytes: &[u8])
    ensures
        final(out)@ == old(out)@ + lower_hex(bytes@),
{
    let ghost start = out@;
    let mut i: usize = 0;
    while i < bytes.len()
        invariant
            i <= bytes@.len(),
            out@ == start + lower_hex(bytes@.take(i as int)),
        decreases bytes.len() - i,
    {
        let b = bytes[i];
        let hi = b / 16;
        let lo = b % 16;
        out.push(if hi < 10 { (48 + hi) as char } else { (87 + hi) as char });
        out.push(if lo < 10 { (48 + lo) as char } else { (87 + lo) as char });
        assert(bytes@.take(i + 1).drop_last() == bytes@.take(i as int));
        i += 1;
    }
    assert(bytes@.take(bytes@.len() as int) == bytes@);
}

/// A quicklink as exported by another launcher.
pub struct ExportedLink {
    pub name: String,
    pub link: String,
    pub open_with: Option<String>,
}

/// The outcome of an import: the merged list and how many entries were
/// added and skipped as duplicates.
pub struct Import {
    pub links: Vec<Quicklink>,
    pub added: usize,
    pub skipped: usize,
}

pub struct ImportModel {
    pub links: Seq<LinkModel>,
    pub added: nat,
    pub skipped: nat,
}

pub open spec fn id_taken(links: Seq<LinkModel>, id: Seq<char>) -> bool {
    exists|j: int| 0 <= j < links.len() && (#[trigger] links[j]).id == id
}

pub open spec fn max_id_len(links: Seq<LinkModel>) -> nat
    decreases links.len(),
{
    if links.len() == 0 {
        0
    } else {
        let rest = max_id_len(links.drop_last());
        if links.last().id.len() > rest {
            links.last().id.len()
        } else {
            rest
        }
    }
}

proof fn lemma_max_id_len(links: Seq<LinkModel>, j: int)
    requires
        0 <= j < links.len(),
    ensures
        links[j].id.len() <= max_id_len(links),
    decreases links.len(),
{
    if j < links.len() - 1 {
        lemma_max_id_len(links.drop_last(), j);
    }
}

/// `id`, with `x` appended until no link uses it.
pub open spec fn free_id(links: Seq<LinkModel>, id: Seq<char>) -> Seq<char>
    decreases max_id_len(links) + 1 - id.len(),
{
    if id_taken(links, id) && id.len() <= max_id_len(links) {
        free_id(links, id.push('x'))
    } else {
        id
    }
}

/// The trimmed name, link and target application of an exported link.
pub open spec fn entry_fields(e: ExportedLink) -> (Seq<char>, Seq<char>, Seq<char>) {
    (trim(e.name@), trim(e.link@), match e.open_with {
        Some(o) => trim(o@),
        None => seq![],
    })
}

pub open spec fn same_content(m: LinkModel, name: Seq<char>, link: Seq<char>, open_with: Seq<char>) -> bool {
    m.name == name && m.link == link && m.open_with == open_with
}

/// The identifier of an imported link: `import-` and the lowercase hex SHA-256 of the JSON
/// array of its name, link and target application, made unique with `x`s.
pub open spec fn import_id(links: Seq<LinkModel>, name: Seq<char>, link: Seq<char>, open_with: Seq<char>) -> Seq<char> {
    free_id(links, "import-"@ + lower_hex(sha256_of(json_triple_of(name, link, open_with))))
}

/// The state after importing the first `n` entries: entries equal to a link
/// already present are skipped, others are added when valid, and the first
/// invalid one stops the import.
pub open spec fn import_upto(existing: Seq<LinkModel>, entries: Seq<ExportedLink>, n: int) -> Result<ImportModel, Seq<char>>
    decreases n,
{
    if n <= 0 {
        Ok(ImportModel { links: existing, added: 0, skipped: 0 })
    } else {
        match import_upto(existing, entries, n - 1) {
            Err(e) => Err(e),
            Ok(st) => {
                let (name, link, open_with) = entry_fields(entries[n - 1]);
                if exists|j: int| 0 <= j < st.links.len() && same_content(#[trigger] st.links[j], name, link, open_with) {
                    Ok(ImportModel { skipped: st.skipped + 1, ..st })
                } else {
                    let id = import_id(st.links, name, link, open_with);
                    match link_problem(id, name, link, open_with) {
                        Some(e) => Err("Link "@ + decimal(n as nat) + " is invalid: "@ + e),
                        None => Ok(ImportModel {
                            links: st.links.push(LinkModel { id, name, link, open_with }),
                            added: st.added + 1,
                            skipped: st.skipped,
                        }),
                    }
                }
            },
        }
    }
}

/// Importing exported links into the existing ones: at most 200 entries,
/// each imported as `import_upto` describes, and the merged list must be
/// valid as a whole.
pub open spec fn import_spec(existing: Seq<LinkModel>, entries: Seq<ExportedLink>) -> Result<ImportModel, Seq<char>> {
    if entries.len() > MAX_LINKS {
        Err(TOO_MANY_IMPORTED@)
    } else {
        match import_upto(existing, entries, entries.len() as int) {
            Err(e) => Err(e),
            Ok(st) => match links_problem(st.links) {
                Some(e) => Err(e),
                None => Ok(st),
            },
        }
    }
}

proof fn lemma_import_stays_err(existing: Seq<LinkModel>, entries: Seq<ExportedLink>, j: int, n: int)
    requires
        0 <= j <= n,
        import_upto(existing, entries, j) is Err,
    ensures
        import_upto(existing, entries, n) == import_upto(existing, entries, j),
    decreases n - j,
{
    if j < n {
        lemma_import_stays_err(existing, entries, j, n - 1);
    }
}

impl Quicklink {
    /// A copy with the same fields.
    pub fn duplicate(&self) -> (copy: Quicklink)
        ensures
            link_model(copy) == link_model(*self),
    {
        Quicklink {
            id: self.id.clone(),
            name: self.name.clone(),
            link: self.link.clone(),
            open_with: self.open_with.clone(),
        }
    }
}

fn content_present(links: &Vec<Quicklink>, name: &[char], link: &[char], open_with: &[char]) -> (r: bool)
    ensures
        r == exists|j: int| 0 <= j < links@.len() && same_content(#[trigger] link_models(links@)[j], name@, link@, open_with@),
{
    let mut j: usize = 0;
    while j < links.len()
        invariant
            j <= links@.len(),
            forall|k: int| 0 <= k < j ==> !same_content(#[trigger] link_models(links@)[k], name@, link@, open_with@),
        decreases links.len() - j,
    {
        let q = &links[j];
        assert(link_models(links@)[j as int] == link_model(links@[j as int]));
        if same_chars(&chars_of(q.name.as_str()), name) && same_chars(&chars_of(q.link.as_str()), link)
            && same_chars(&chars_of(q.open_with.as_str()), open_with) {
            return true;
        }
        j += 1;
    }
    false
}

fn id_in_use(links: &Vec<Quicklink>, id: &[char]) -> (r: bool)
    ensures
        r == id_taken(link_models(links@), id@),
{
    let mut j: usize = 0;
    while j < links.len()
        invariant
            j <= links@.len(),
            forall|k: int| 0 <= k < j ==> (#[trigger] link_models(links@)[k]).id != id@,
        decreases links.len() - j,
    {
        assert(link_models(links@)[j as int] == link_model(links@[j as int]));
        if same_chars(&chars_of(links[j].id.as_str()), id) {
            return true;
        }
        j += 1;
    }
    false
}

/// Imports exported links into `existing`.
pub fn import_entries(existing: &[Quicklink], entries: &[ExportedLink]) -> (r: Result<Import, String>)
    ensures
        match import_spec(link_models(existing@), entries@) {
            Ok(m) => r matches Ok(imp) && link_models(imp.links@) == m.links && imp.added == m.added && imp.skipped == m.skipped,
            Err(e) => r matches Err(msg) && msg@ == e,
        },
{
    let ghost ex = link_models(existing@);
    if entries.len() > MAX_LINKS {
        return Err(TOO_MANY_IMPORTED.to_owned());
    }
    let mut links: Vec<Quicklink> = Vec::new();
    let mut k: usize = 0;
    while k < existing.len()
        invariant
            k <= existing@.len(),
            link_models(links@) == link_models(existing@.take(k as int)),
        decreases existing.len() - k,
    {
        let ghost before = links@;
        links.push(existing[k].duplicate());
        k += 1;
        assert(link_models(links@) == link_models(before).push(link_model(existing@[k - 1])));
        assert(existing@.take(k as int) == existing@.take(k - 1).push(existing@[k - 1]));
        assert(link_models(existing@.take(k as int)) == link_models(existing@.take(k - 1)).push(link_model(existing@[k - 1])));
    }
    assert(existing@.take(existing@.len() as int) == existing@);
    let mut added: usize = 0;
    let mut skipped: usize = 0;
    let mut n: usize = 0;
    while n < entries.len()
        invariant
            ex == link_models(existing@),
            entries@.len() <= MAX_LINKS,
            n <= entries@.len(),
            import_upto(ex, entries@, n as int) == Ok::<ImportModel, Seq<char>>(ImportModel { links: link_models(links@), added: added as nat, skipped: skipped as nat }),
            added + skipped == n,
        decreases entries.len() - n,
    {
        let entry = &entries[n];
        let name = trimmed(&chars_of(entry.name.as_str()));
        let link = trimmed(&chars_of(entry.link.as_str()));
        let open_with = match &entry.open_with {
            Some(o) => trimmed(&chars_of(o.as_str())),
            None => Vec::new(),
        };
        assert(entry_fields(entries@[n as int]) == (name@, link@, open_with@));
        if content_present(&links, &name, &link, &open_with) {
            skipped += 1;
            n += 1;
            continue;
        }
        let name_text = string_of(&name);
        let link_text = string_of(&link);
        let open_text = string_of(&open_with);
        let identity = json_triple(name_text.as_str(), link_text.as_str(), open_text.as_str());
        let mut id = chars_of("import-");
        let digest = sha256(&identity);
        push_lower_hex(&mut id, &digest);
        let ghost ms = link_models(links@);
        while id_in_use(&links, &id)
            invariant
                ms == link_models(links@),
                free_id(ms, id@) == import_id(ms, name@, link@, open_with@),
            decreases max_id_len(ms) + 1 - id@.len(),
        {
            proof {
                let j = choose|j: int| 0 <= j < ms.len() && (#[trigger] ms[j]).id == id@;
                lemma_max_id_len(ms, j);
            }
            id.push('x');
        }
        let candidate = Quicklink {
            id: string_of(&id),
            name: name_text,
            link: link_text,
            open_with: open_text,
        };
        match candidate.validate() {
            Ok(()) => {},
            Err(e) => {
                let mut message = chars_of("Link ");
                push_decimal(&mut message, (n + 1) as u64);
                push_all(&mut message, &chars_of(" is invalid: "));
                push_all(&mut message, &chars_of(e.as_str()));
                proof {
                    lemma_import_stays_err(ex, entries@, n + 1, entries@.len() as int);
                }
                return Err(string_of(&message));
            },
        }
        let ghost before = links@;
        links.push(candidate);
        assert(link_models(links@) == link_models(before).push(link_model(candidate)));
        added += 1;
        n += 1;
    }
    match validate(&links) {
        Ok(()) => {},
        Err(e) => {
            return Err(e);
        },
    }
    Ok(Import { links, added, skipped })
}

/// How a link is handed to the application chosen to open it.
#[derive(Debug, PartialEq, Eq)]
pub enum OpenWith {
    /// The default application for the link.
    Default,
    /// An application named by its bundle identifier, such as `com.apple.Safari`.
    BundleId(String),
    /// An application named by its name or path.
    Application(String),
}

/// A target that reads as a bundle identifier: dotted, without a path
/// separator, space or `.app` ending.
pub open spec fn bundle_id_like(t: Seq<char>) -> bool {
    t.contains('.') && !t.contains('/') && !(t.len() >= 4 && t.subrange(t.len() - 4, t.len() as int) == ".app"@) && !t.contains(' ')
}

/// The application that opens a quicklink, from its `open_with` setting.
pub fn open_with(application: &str) -> (r: OpenWith)
    ensures
        trim(application@).len() == 0 ==> r == OpenWith::Default,
        trim(application@).len() > 0 && bundle_id_like(trim(application@)) ==> (r matches OpenWith::BundleId(id) && id@ == trim(application@)),
        trim(application@).len() > 0 && !bundle_id_like(trim(application@)) ==> (r matches OpenWith::Application(name) && name@ == trim(application@)),
{
    let t = trimmed(&chars_of(application));
    if t.len() == 0 {
        return OpenWith::Default;
    }
    let app_suffix = if t.len() >= 4 {
        let tail = slice_chars(&t, t.len() - 4, t.len());
        is_word(&tail, ".app")
    } else {
        false
    };
    let target = string_of(&t);
    if has_char(&t, '.') && !has_char(&t, '/') && !app_suffix && !has_char(&t, ' ') {
        OpenWith::BundleId(target)
    } else {
        OpenWith::Application(target)
    }
}

} // verus!
