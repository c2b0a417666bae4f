//! Properties of quicklinks that span calls: accepted destinations are
//! stable, and importing the same export twice adds nothing the second time.

use crate::quicklinks::{
    lowered_order, lowered_rank, lowered_rank_of, parse_template, hex_digit, percent_encoded, unreserved, absolute_path, ascii_lower, blocked_scheme, byte_len, destination_spec, entry_fields,
    has_control, import_spec, import_upto, links_problem, lower_scheme, same_content,
    valid_scheme, web_remainder, ExportedLink, ImportModel, LinkModel, MAX_LINKS, MAX_LINK_BYTES,
};
use crate::text::{
    contains, occurs_at, starts_with, words, control, first_from, lemma_first_from_bounds, lemma_first_from_found, lemma_trim_edges,
    lemma_trim_unpadded, trim,
};
use vstd::prelude::*;

verus! {

/// A destination that was accepted, and whose result still fits in 16 KB,
/// is accepted again unchanged: normalizing a link twice is the same as
/// normalizing it once.
pub proof fn lemma_destination_is_stable(value: Seq<char>)
    requires
        destination_spec(value) is Some,
        byte_len(destination_spec(value)->0) <= MAX_LINK_BYTES,
    ensures
        destination_spec(destination_spec(value)->0) == destination_spec(value),
{
    let v = trim(value);
    lemma_trim_edges(value);
    let d = destination_spec(value)->0;
    if absolute_path(v) || first_from(v, ':', 0) < v.len() {
        assert(d == v);
        lemma_trim_unpadded(v);
    } else {
        reveal_strlit("https://");
        let w = "https://"@ + v;
        assert(d == w);
        assert(w[0] == 'h');
        assert(w.last() == v.last());
        lemma_trim_unpadded(w);
        assert(!has_control(w)) by {
            assert forall|i: int| 0 <= i < w.len() implies !control(#[trigger] w[i]) by {
                if i >= 8 {
                    assert(w[i] == v[i - 8]);
                }
            }
        }
        assert(!absolute_path(w));
        lemma_first_from_found(w, ':', 0, 5);
        reveal_strlit("https");
        let scheme = w.take(5);
        assert(scheme == "https"@);
        assert(valid_scheme(scheme));
        assert(lower_scheme(scheme) == "https"@) by {
            assert forall|i: int| 0 <= i < 5 implies #[trigger] lower_scheme(scheme)[i] == scheme[i] by {
                assert(ascii_lower(scheme[i]) == scheme[i]);
            }
        }
        reveal_strlit("javascript");
        reveal_strlit("data");
        reveal_strlit("vbscript");
        reveal_strlit("shell");
        assert(!blocked_scheme(lower_scheme(scheme)));
        let rem = w.skip(6);
        assert(rem.skip(2) == v);
        assert(rem[0] == '/' && rem[1] == '/');
        assert(v[0] != '/');
        assert(web_remainder(rem));
    }
}

/// An accepted destination is the trimmed value, or the trimmed value after
/// `https://`; it is non-empty, has no control character, and its scheme,
/// when it has one, is none that could run code.
pub proof fn lemma_destination_shape(value: Seq<char>)
    ensures
        destination_spec(value) matches Some(d) ==> {
            &&& d.len() > 0
            &&& !has_control(d)
            &&& (d == trim(value) || d == "https://"@ + trim(value))
            &&& (first_from(d, ':', 0) < d.len() ==> !blocked_scheme(lower_scheme(d.take(first_from(d, ':', 0)))))
        },
{
    let v = trim(value);
    if destination_spec(value) is Some {
        let d = destination_spec(value)->0;
        reveal_strlit("javascript");
        reveal_strlit("data");
        reveal_strlit("vbscript");
        reveal_strlit("shell");
        if absolute_path(v) {
            let c = first_from(v, ':', 0);
            if c < v.len() {
                lemma_first_from_bounds(v, ':', 0);
                assert(v[0] != ':');
                let scheme = lower_scheme(v.take(c));
                assert(scheme[0] == ascii_lower(v[0]));
                assert(scheme[0] == '/' || scheme[0] == '~');
                assert(scheme != "javascript"@ && scheme != "data"@ && scheme != "vbscript"@ && scheme != "shell"@) by {
                    assert("javascript"@[0] == 'j' && "data"@[0] == 'd' && "vbscript"@[0] == 'v' && "shell"@[0] == 's');
                }
            }
            assert(d == v);
            assert(d.len() > 0);
            assert(!has_control(d));
            assert(first_from(d, ':', 0) < d.len() ==> !blocked_scheme(lower_scheme(d.take(first_from(d, ':', 0)))));
        } else if first_from(v, ':', 0) < v.len() {
            assert(d == v);
            assert(d.len() > 0);
            assert(!has_control(d));
        } else {
            reveal_strlit("https://");
            let w = "https://"@ + v;
            assert(d == w);
            assert(!has_control(w)) by {
                assert forall|i: int| 0 <= i < w.len() implies !control(#[trigger] w[i]) by {
                    if i >= 8 {
                        assert(w[i] == v[i - 8]);
                    }
                }
            }
            lemma_first_from_found(w, ':', 0, 5);
            reveal_strlit("https");
            let scheme = w.take(5);
            assert(scheme == "https"@);
            assert(lower_scheme(scheme) == "https"@) by {
                assert forall|i: int| 0 <= i < 5 implies #[trigger] lower_scheme(scheme)[i] == scheme[i] by {
                    assert(ascii_lower(scheme[i]) == scheme[i]);
                }
            }
            assert(!blocked_scheme(lower_scheme(scheme))) by {
                assert("https"@[0] == 'h' && "shell"@[0] == 's');
                assert("https"@.len() == 5 && "javascript"@.len() == 10 && "data"@.len() == 4 && "vbscript"@.len() == 8);
            }
            assert(d.len() > 0);
        }
    }
}

/// Each import step keeps the links it found and may append one.
proof fn lemma_import_prefix(existing: Seq<LinkModel>, entries: Seq<ExportedLink>, m: int, n: int)
    requires
        0 <= m <= n,
        import_upto(existing, entries, n) is Ok,
    ensures
        import_upto(existing, entries, m) is Ok,
        import_upto(existing, entries, m)->Ok_0.links.len() <= import_upto(existing, entries, n)->Ok_0.links.len(),
        forall|j: int|
            0 <= j < import_upto(existing, entries, m)->Ok_0.links.len() ==> import_upto(existing, entries, n)->Ok_0.links[j]
                == #[trigger] import_upto(existing, entries, m)->Ok_0.links[j],
    decreases n - m,
{
    if m < n {
        assert(import_upto(existing, entries, n - 1) is Ok);
        lemma_import_prefix(existing, entries, m, n - 1);
    }
}

/// After entry `i` is processed, a link with its content is present.
proof fn lemma_entry_present(existing: Seq<LinkModel>, entries: Seq<ExportedLink>, i: int)
    requires
        0 <= i < entries.len(),
        import_upto(existing, entries, i + 1) is Ok,
    ensures
        ({
            let st = import_upto(existing, entries, i + 1)->Ok_0;
            let (name, link, open_with) = entry_fields(entries[i]);
            exists|j: int| 0 <= j < st.links.len() && same_content(#[trigger] st.links[j], name, link, open_with)
        }),
{
    let prev = import_upto(existing, entries, i)->Ok_0;
    let st = import_upto(existing, entries, i + 1)->Ok_0;
    let (name, link, open_with) = entry_fields(entries[i]);
    if exists|j: int| 0 <= j < prev.links.len() && same_content(#[trigger] prev.links[j], name, link, open_with) {
        let j = choose|j: int| 0 <= j < prev.links.len() && same_content(#[trigger] prev.links[j], name, link, open_with);
        assert(st.links[j] == prev.links[j]);
    } else {
        assert(same_content(st.links[st.links.len() - 1], name, link, open_with));
    }
}

/// Importing entries whose content is already present skips every one.
proof fn lemma_all_skipped(links: Seq<LinkModel>, entries: Seq<ExportedLink>, n: int)
    requires
        0 <= n <= entries.len(),
        forall|i: int| 0 <= i < entries.len() ==> exists|j: int| 0 <= j < links.len() && same_content(
            #[trigger] links[j],
            (#[trigger] entry_fields(entries[i])).0,
            entry_fields(entries[i]).1,
            entry_fields(entries[i]).2,
        ),
    ensures
        import_upto(links, entries, n) == Ok::<ImportModel, Seq<char>>(ImportModel { links, added: 0, skipped: n as nat }),
    decreases n,
{
    if n > 0 {
        lemma_all_skipped(links, entries, n - 1);
        let f = entry_fields(entries[n - 1]);
        assert(exists|j: int| 0 <= j < links.len() && same_content(#[trigger] links[j], f.0, f.1, f.2));
    }
}

/// Every processed entry is either added or skipped.
proof fn lemma_import_counts(existing: Seq<LinkModel>, entries: Seq<ExportedLink>, n: int)
    requires
        0 <= n,
        import_upto(existing, entries, n) is Ok,
    ensures
        import_upto(existing, entries, n)->Ok_0.added + import_upto(existing, entries, n)->Ok_0.skipped == n,
        import_upto(existing, entries, n)->Ok_0.links.len() == existing.len() + import_upto(existing, entries, n)->Ok_0.added,
    decreases n,
{
    if n > 0 {
        assert(import_upto(existing, entries, n - 1) is Ok);
        lemma_import_counts(existing, entries, n - 1);
    }
}

/// A successful import keeps the existing links, unchanged and in order, in
/// front of the added ones; every entry is counted as added or skipped, and
/// one link is appended per added entry.
pub proof fn lemma_import_keeps_existing(existing: Seq<LinkModel>, entries: Seq<ExportedLink>)
    requires
        import_spec(existing, entries) is Ok,
    ensures
        ({
            let r = import_spec(existing, entries)->Ok_0;
            &&& r.links.take(existing.len() as int) == existing
            &&& r.links.len() == existing.len() + r.added
            &&& r.added + r.skipped == entries.len()
        }),
{
    let n = entries.len() as int;
    assert(import_upto(existing, entries, n) is Ok);
    lemma_import_prefix(existing, entries, 0, n);
    lemma_import_counts(existing, entries, n);
    let r = import_upto(existing, entries, n)->Ok_0;
    assert(r.links.take(existing.len() as int) =~= existing);
}

/// Importing the same export into the result of an import adds nothing:
/// every entry is skipped as a duplicate and the links stay as they are.
pub proof fn lemma_reimport_adds_nothing(existing: Seq<LinkModel>, entries: Seq<ExportedLink>)
    requires
        import_spec(existing, entries) is Ok,
    ensures
        import_spec(import_spec(existing, entries)->Ok_0.links, entries) == Ok::<ImportModel, Seq<char>>(
            ImportModel {
                links: import_spec(existing, entries)->Ok_0.links,
                added: 0,
                skipped: entries.len(),
            },
        ),
{
    let n = entries.len() as int;
    let fin = import_upto(existing, entries, n)->Ok_0;
    assert(entries.len() <= MAX_LINKS);
    assert(import_upto(existing, entries, n) is Ok);
    assert(links_problem(fin.links) is None);
    assert forall|i: int| 0 <= i < entries.len() implies exists|j: int| 0 <= j < fin.links.len() && same_content(
        #[trigger] fin.links[j],
        (#[trigger] entry_fields(entries[i])).0,
        entry_fields(entries[i]).1,
        entry_fields(entries[i]).2,
    ) by {
        lemma_import_prefix(existing, entries, i + 1, n);
        lemma_entry_present(existing, entries, i);
        let st = import_upto(existing, entries, i + 1)->Ok_0;
        let f = entry_fields(entries[i]);
        let j = choose|j: int| 0 <= j < st.links.len() && same_content(#[trigger] st.links[j], f.0, f.1, f.2);
        assert(fin.links[j] == st.links[j]);
    }
    lemma_all_skipped(fin.links, entries, n);
}

/// Characters that keep their meaning inside a URL component: ASCII
/// letters and digits, `-`, `.`, `_`, `~`, and the `%` of an escape.
pub open spec fn component_char(c: char) -> bool {
    ('0' <= c <= '9') || ('A' <= c <= 'Z') || ('a' <= c <= 'z') || c == '-' || c == '.' || c == '_'
        || c == '~' || c == '%'
}

/// A percent-encoded value holds only component characters, so a value put
/// into a link can never add a `/`, `?`, `&`, `#` or space to it.
pub proof fn lemma_encoded_value_is_inert(bytes: Seq<u8>)
    ensures
        forall|i: int| 0 <= i < percent_encoded(bytes).len() ==> component_char(#[trigger] percent_encoded(bytes)[i]),
    decreases bytes.len(),
{
    if bytes.len() > 0 {
        let rest = bytes.drop_last();
        lemma_encoded_value_is_inert(rest);
        let b = bytes.last();
        let head = percent_encoded(rest);
        let tail = if unreserved(b) {
            seq![b as char]
        } else {
            seq!['%', hex_digit(b / 16), hex_digit(b % 16)]
        };
        assert(percent_encoded(bytes) == head + tail);
        assert forall|i: int| 0 <= i < tail.len() implies component_char(#[trigger] tail[i]) by {
            if !unreserved(b) && i > 0 {
                let n: u8 = if i == 1 { b / 16 } else { b % 16 };
                assert(n < 16);
                assert(tail[i] == hex_digit(n));
            }
        }
        assert forall|i: int| 0 <= i < percent_encoded(bytes).len() implies component_char(#[trigger] percent_encoded(bytes)[i]) by {
            if i < head.len() {
                assert(percent_encoded(bytes)[i] == head[i]);
            } else {
                assert(percent_encoded(bytes)[i] == tail[i - head.len()]);
            }
        }
    }
}

/// Name `x` matches the query better than name `y`: it is the query and
/// `y` is not, it starts with the query and `y` does not, or it contains the
/// query and `y` does not.
pub open spec fn better_name(x: Seq<char>, y: Seq<char>, q: Seq<char>) -> bool {
    ||| (x == q && y != q)
    ||| (starts_with(x, q) && !starts_with(y, q))
    ||| (contains(x, q) && !contains(y, q))
}

proof fn lemma_rank_follows_name(q: Seq<char>, x: Seq<char>, ax: Seq<char>, y: Seq<char>, ay: Seq<char>)
    requires
        lowered_rank(q, x, ax) is Some,
        lowered_rank(q, y, ay) is Some,
        better_name(x, y, q),
    ensures
        lowered_rank_of(q, x, ax) < lowered_rank_of(q, y, ay),
{
    assert(q.subrange(0, q.len() as int) == q);
    assert(occurs_at(q, q, 0));
    if starts_with(y, q) {
        assert(occurs_at(y, q, 0));
    }
    if starts_with(x, q) {
        assert(occurs_at(x, q, 0));
    }
}

/// Among the matching entries, one whose name is the query comes before
/// one whose name is not; one whose name starts with the query before one
/// whose name does not; one whose name contains the query before one whose
/// name does not.
pub proof fn lemma_better_names_come_first(
    r: Seq<usize>,
    names: Seq<Seq<char>>,
    addresses: Seq<Seq<char>>,
    q: Seq<char>,
)
    requires
        lowered_order(r, names, addresses, q),
    ensures
        forall|a: int, b: int|
            0 <= a < r.len() && 0 <= b < r.len() && better_name(names[#[trigger] r[a] as int], names[#[trigger] r[b] as int], q)
                ==> a < b,
{
    assert forall|a: int, b: int|
        0 <= a < r.len() && 0 <= b < r.len() && better_name(names[#[trigger] r[a] as int], names[#[trigger] r[b] as int], q)
            implies a < b by {
        let x = r[a] as int;
        let y = r[b] as int;
        lemma_rank_follows_name(q, names[x], addresses[x], names[y], addresses[y]);
        if b < a {
            assert(lowered_rank_of(q, names[y], addresses[y]) <= lowered_rank_of(q, names[x], addresses[x]));
        }
        if a == b {
            assert(names[x] == names[y]);
        }
    }
}

/// A parsed template is a file template, whose values are inserted as they
/// are, exactly when its trimmed link starts with `/` or `~/`.
pub proof fn lemma_file_templates_are_paths(link: Seq<char>)
    ensures
        parse_template(link) matches Ok(t) ==> t.file == (starts_with(trim(link), "/"@) || starts_with(trim(link), "~/"@)),
{
    reveal_strlit("/");
    reveal_strlit("~/");
    let v = trim(link);
    assert("/"@ =~= seq!['/']);
    assert("~/"@ =~= seq!['~', '/']);
    let slash = "/"@;
    let home = "~/"@;
    if starts_with(v, slash) {
        assert(v.subrange(0, 1)[0] == slash[0]);
    }
    if v.len() >= 1 && v[0] == '/' {
        assert(v.subrange(0, 1) =~= slash);
    }
    if starts_with(v, home) {
        assert(v.subrange(0, 2)[0] == home[0]);
        assert(v.subrange(0, 2)[1] == home[1]);
    }
    if v.len() >= 2 && v[0] == '~' && v[1] == '/' {
        assert(v.subrange(0, 2) =~= home);
    }
}

/// One import step, stated over the entry's trimmed fields: the entry is
/// skipped, leaving everything else as it was, exactly when a link with the
/// same name, link and target application is present; otherwise a link with
/// those three fields is appended after the present ones.
pub proof fn lemma_import_step(existing: Seq<LinkModel>, entries: Seq<ExportedLink>, i: int)
    requires
        0 <= i < entries.len(),
        import_upto(existing, entries, i + 1) is Ok,
    ensures
        import_upto(existing, entries, i) is Ok,
        ({
            let prev = import_upto(existing, entries, i)->Ok_0;
            let next = import_upto(existing, entries, i + 1)->Ok_0;
            let e = entries[i];
            let name = trim(e.name@);
            let link = trim(e.link@);
            let open_with = match e.open_with {
                Some(o) => trim(o@),
                None => Seq::<char>::empty(),
            };
            let present = exists|j: int|
                0 <= j < prev.links.len() && (#[trigger] prev.links[j]).name == name && prev.links[j].link == link
                    && prev.links[j].open_with == open_with;
            &&& present ==> next.links == prev.links && next.skipped == prev.skipped + 1 && next.added == prev.added
            &&& !present ==> {
                &&& next.links.len() == prev.links.len() + 1
                &&& next.links.drop_last() == prev.links
                &&& next.links.last().name == name
                &&& next.links.last().link == link
                &&& next.links.last().open_with == open_with
                &&& next.added == prev.added + 1
                &&& next.skipped == prev.skipped
            }
        }),
{
    assert(import_upto(existing, entries, i) is Ok);
    let prev = import_upto(existing, entries, i)->Ok_0;
    let (n, l, o) = entry_fields(entries[i]);
    assert(forall|j: int| 0 <= j < prev.links.len() ==> (same_content(#[trigger] prev.links[j], n, l, o) <==> (prev.links[j].name == n && prev.links[j].link == l && prev.links[j].open_with == o)));
}

} // verus!
