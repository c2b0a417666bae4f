//! Bounds on diagnostic log messages and log files.

use crate::quicklinks::{byte_len, char_width, lemma_byte_len_concat, push_all};
use crate::text::{chars_of, string_of};
use vstd::prelude::*;
use vstd::utf8::encode_utf8;

verus! {

/// The most bytes of one message's data that are written to the log.
pub const MESSAGE_LIMIT: usize = 16384;

/// The size at which a log file is moved aside and a new one started.
pub const FILE_LIMIT: u64 = 2097152;

/// `text` cut after its longest prefix of at most `MESSAGE_LIMIT` bytes, with
/// ` [truncated]` appended; unchanged when it fits.
pub open spec fn bounded_spec(text: Seq<char>, k: int) -> bool {
    &&& 0 <= k < text.len()
    &&& byte_len(text.take(k)) <= MESSAGE_LIMIT
    &&& byte_len(text.take(k + 1)) > MESSAGE_LIMIT
}

proof fn lemma_take_grows(s: Seq<char>, i: int)
    requires
        0 <= i < s.len(),
    ensures
        byte_len(s.take(i + 1)) == byte_len(s.take(i)) + encode_utf8(seq![s[i]]).len(),
{
    assert(s.take(i + 1) == s.take(i) + seq![s[i]]);
    lemma_byte_len_concat(s.take(i), seq![s[i]]);
}

/// Limits the data of a log message to `MESSAGE_LIMIT` bytes, cutting at a
/// character boundary and marking the cut.
pub fn bounded(text: String) -> (r: String)
    ensures
        byte_len(text@) <= MESSAGE_LIMIT ==> r@ == text@,
        byte_len(text@) > MESSAGE_LIMIT ==> exists|k: int| bounded_spec(text@, k) && r@ == text@.take(k) + " [truncated]"@,
{
    let chars = chars_of(text.as_str());
    let mut total: usize = 0;
    let mut i: usize = 0;
    assert(chars@.take(0) == Seq::<char>::empty());
    while i < chars.len()
        invariant
            chars@ == text@,
            i <= chars@.len(),
            total == byte_len(chars@.take(i as int)),
            total <= MESSAGE_LIMIT,
        decreases chars.len() - i,
    {
        let w = char_width(chars[i]);
        proof {
            lemma_take_grows(chars@, i as int);
        }
        if w > MESSAGE_LIMIT - total {
            let mut out: Vec<char> = Vec::new();
            push_all(&mut out, &crate::quicklinks::slice_prefix(&chars, i));
            push_all(&mut out, &chars_of(" [truncated]"));
            assert(bounded_spec(text@, i as int));
            proof {
                let j = i + 1;
                assert(chars@.take(j as int) + chars@.skip(j as int) == chars@);
                lemma_byte_len_concat(chars@.take(j as int), chars@.skip(j as int));
            }
            return string_of(&out);
        }
        total = total + w;
        i += 1;
    }
    assert(chars@.take(chars@.len() as int) == chars@);
    text
}

/// A log file is moved aside before a write that would take a non-empty
/// file past its limit, the new size counted with saturation at `u64::MAX`.
pub open spec fn rotation_needed(bytes: u64, incoming: u64, limit: u64) -> bool {
    bytes > 0 && (if bytes + incoming > u64::MAX {
        u64::MAX as int
    } else {
        bytes + incoming
    }) > limit
}

pub fn needs_rotation(bytes: u64, incoming: u64, limit: u64) -> (r: bool)
    ensures
        r == rotation_needed(bytes, incoming, limit),
{
    bytes > 0 && bytes.saturating_add(incoming) > limit
}

} // verus!
