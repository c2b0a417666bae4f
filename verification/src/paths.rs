//! Rules on file system paths: which application bundles may be listed, and
//! how folder lists typed into settings are read.

use crate::quicklinks::{push_all, slice_chars};
use crate::text::{char_vecs, chars_of, trim, trimmed};
use vstd::prelude::*;

verus! {

/// The components of a path as `std::path::Path::components` yields them,
/// each as its text: `/` for the root, the name for a normal component.
pub uninterp spec fn path_components_of(path: Seq<char>) -> Seq<Seq<char>>;

/// Calls `std::path::Path::components` and converts each component to its
/// text.
#[verifier::external_body]
fn path_components(path: &str) -> (r: Vec<String>)
    ensures
        r@.map_values(|c: String| c@) == path_components_of(path@),
{
    std::path::Path::new(path).components().map(|c| c.as_os_str().to_string_lossy().into_owned()).collect()
}

/// `base` is a leading run of whole components of `cs`.
pub open spec fn under(cs: Seq<Seq<char>>, base: Seq<Seq<char>>) -> bool {
    base.len() <= cs.len() && cs.take(base.len() as int) == base
}

pub open spec fn system_application(cs: Seq<Seq<char>>) -> bool {
    ||| under(cs, seq!["/"@, "System"@, "Applications"@])
    ||| under(cs, seq!["/"@, "System"@, "Cryptexes"@, "App"@, "System"@, "Applications"@])
    ||| under(cs, seq!["/"@, "System"@, "Library"@, "CoreServices"@, "Applications"@])
    ||| cs == seq!["/"@, "System"@, "Library"@, "CoreServices"@, "Finder.app"@]
}

/// Some user's Library folder: `Users`, a user name, `Library`.
pub open spec fn in_user_library(cs: Seq<Seq<char>>) -> bool {
    exists|i: int| 0 <= i && i + 2 < cs.len() && #[trigger] cs[i] == "Users"@ && cs[i + 2] == "Library"@
}

pub open spec fn hidden_component(cs: Seq<Seq<char>>) -> bool {
    exists|i: int| 0 <= i < cs.len() && (#[trigger] cs[i]).len() > 0 && cs[i][0] == '.'
}

/// A name with the extension `app`.
pub open spec fn app_bundle_name(name: Seq<char>) -> bool {
    name.len() > 4 && name.subrange(name.len() - 4, name.len() as int) == ".app"@
}

/// Some enclosing folder of the path is an application bundle.
pub open spec fn inside_bundle(cs: Seq<Seq<char>>) -> bool {
    exists|k: int| 1 <= k < cs.len() && app_bundle_name(#[trigger] cs[k - 1])
}

/// An application path worth listing: absolute, not on another volume, not
/// in the system folders other than the system applications, not in a
/// Library folder, not hidden, and not nested inside another bundle.
pub open spec fn usable_component_list(cs: Seq<Seq<char>>) -> bool {
    &&& cs.len() > 0 && cs[0] == "/"@
    &&& !under(cs, seq!["/"@, "Volumes"@])
    &&& (!under(cs, seq!["/"@, "System"@]) || system_application(cs))
    &&& !under(cs, seq!["/"@, "Library"@])
    &&& !in_user_library(cs)
    &&& !hidden_component(cs)
    &&& !inside_bundle(cs)
}

fn is_word(v: &[char], word: &str) -> (r: bool)
    ensures
        r == (v@ == word@),
{
    crate::text::same_chars(v, &chars_of(word))
}

/// Whether the components start with the given names.
fn starts_under(cs: &Vec<Vec<char>>, base: &[&str]) -> (r: bool)
    ensures
        r == under(char_vecs(cs@), base@.map_values(|b: &str| b@)),
{
    let ghost bs = base@.map_values(|b: &str| b@);
    if base.len() > cs.len() {
        return false;
    }
    let mut i: usize = 0;
    while i < base.len()
        invariant
            base@.len() <= cs@.len(),
            bs == base@.map_values(|b: &str| b@),
            i <= base@.len(),
            forall|k: int| 0 <= k < i ==> #[trigger] char_vecs(cs@)[k] == bs[k],
        decreases base.len() - i,
    {
        assert(char_vecs(cs@)[i as int] == cs@[i as int]@);
        if !is_word(&cs[i], base[i]) {
            assert(char_vecs(cs@).take(bs.len() as int)[i as int] != bs[i as int]);
            return false;
        }
        i += 1;
    }
    assert(char_vecs(cs@).take(bs.len() as int) =~= bs);
    true
}

/// Each component's characters.
fn char_lists(parts: &[String]) -> (cs: Vec<Vec<char>>)
    ensures
        char_vecs(cs@) == parts@.map_values(|c: String| c@),
{
    let mut cs: Vec<Vec<char>> = Vec::new();
    let mut i: usize = 0;
    while i < parts.len()
        invariant
            i <= parts@.len(),
            char_vecs(cs@) == parts@.take(i as int).map_values(|c: String| c@),
        decreases parts.len() - i,
    {
        let ghost before = cs@;
        cs.push(chars_of(parts[i].as_str()));
        assert(char_vecs(cs@) == char_vecs(before).push(parts@[i as int]@));
        i += 1;
        assert(parts@.take(i as int).map_values(|c: String| c@) == parts@.take(i - 1).map_values(|c: String| c@).push(parts@[i - 1]@));
    }
    assert(parts@.take(parts@.len() as int) == parts@);
    cs
}

/// Whether the components `cs` start with the components `base`.
fn components_under(cs: &Vec<Vec<char>>, base: &Vec<Vec<char>>) -> (r: bool)
    ensures
        r == under(char_vecs(cs@), char_vecs(base@)),
{
    if base.len() > cs.len() {
        return false;
    }
    let mut i: usize = 0;
    while i < base.len()
        invariant
            base@.len() <= cs@.len(),
            i <= base@.len(),
            forall|k: int| 0 <= k < i ==> #[trigger] char_vecs(cs@)[k] == char_vecs(base@)[k],
        decreases base.len() - i,
    {
        assert(char_vecs(cs@)[i as int] == cs@[i as int]@);
        assert(char_vecs(base@)[i as int] == base@[i as int]@);
        if !crate::text::same_chars(&cs[i], &base[i]) {
            assert(char_vecs(cs@).take(base@.len() as int)[i as int] != char_vecs(base@)[i as int]);
            return false;
        }
        i += 1;
    }
    assert(char_vecs(cs@).take(base@.len() as int) =~= char_vecs(base@));
    true
}

/// The components of each path, as text.
pub open spec fn string_lists(v: Seq<Vec<String>>) -> Seq<Seq<Seq<char>>> {
    v.map_values(|p: Vec<String>| p@.map_values(|c: String| c@))
}

/// One component list lies inside the other.
pub open spec fn related_components(path: Seq<Seq<char>>, root: Seq<Seq<char>>) -> bool {
    under(path, root) || under(root, path)
}

/// A file-system event concerns the application catalog: the watcher asks
/// for a rescan, or it is not a mere access and either names no path or
/// names a path inside a watched root or above one, paths given by their
/// components.
pub open spec fn catalog_event_components(
    need_rescan: bool,
    access: bool,
    paths: Seq<Seq<Seq<char>>>,
    roots: Seq<Seq<Seq<char>>>,
) -> bool {
    need_rescan || (!access && (paths.len() == 0 || exists|i: int, j: int|
        0 <= i < paths.len() && 0 <= j < roots.len() && #[trigger] related_components(paths[i], roots[j])))
}

/// The same, for paths given as text and split by `Path::components`.
pub open spec fn catalog_event(need_rescan: bool, access: bool, paths: Seq<Seq<char>>, roots: Seq<Seq<char>>) -> bool {
    catalog_event_components(
        need_rescan,
        access,
        paths.map_values(|p: Seq<char>| path_components_of(p)),
        roots.map_values(|p: Seq<char>| path_components_of(p)),
    )
}

/// The components of each path.
fn component_lists(paths: &[String]) -> (r: Vec<Vec<String>>)
    ensures
        string_lists(r@) == paths@.map_values(|p: String| path_components_of(p@)),
{
    let mut r: Vec<Vec<String>> = Vec::new();
    let mut i: usize = 0;
    while i < paths.len()
        invariant
            i <= paths@.len(),
            string_lists(r@) == paths@.take(i as int).map_values(|p: String| path_components_of(p@)),
        decreases paths.len() - i,
    {
        let ghost before = r@;
        let cs = path_components(paths[i].as_str());
        let ghost cv = cs@.map_values(|c: String| c@);
        r.push(cs);
        assert(string_lists(r@) == string_lists(before).push(cv));
        i += 1;
        assert(paths@.take(i as int).map_values(|p: String| path_components_of(p@)) == paths@.take(i - 1).map_values(|p: String| path_components_of(p@)).push(path_components_of(paths@[i - 1]@)));
    }
    assert(paths@.take(paths@.len() as int) == paths@);
    r
}

/// Whether a file-system event, given by whether the watcher asks for a
/// rescan, whether it is an access and the paths it names, may change the
/// applications found under `roots`.
pub fn affects_catalog(need_rescan: bool, access: bool, paths: &[String], roots: &[String]) -> (r: bool)
    ensures
        r == catalog_event(
            need_rescan,
            access,
            paths@.map_values(|p: String| p@),
            roots@.map_values(|p: String| p@),
        ),
{
    let path_cs = component_lists(paths);
    let root_cs = component_lists(roots);
    assert(paths@.map_values(|p: String| p@).map_values(|p: Seq<char>| path_components_of(p)) == string_lists(path_cs@));
    assert(roots@.map_values(|p: String| p@).map_values(|p: Seq<char>| path_components_of(p)) == string_lists(root_cs@));
    affects_catalog_components(need_rescan, access, &path_cs, &root_cs)
}

/// `affects_catalog` for paths already split into components.
pub fn affects_catalog_components(need_rescan: bool, access: bool, paths: &[Vec<String>], roots: &[Vec<String>]) -> (r: bool)
    ensures
        r == catalog_event_components(need_rescan, access, string_lists(paths@), string_lists(roots@)),
{
    let ghost ps = string_lists(paths@);
    let ghost rs = string_lists(roots@);
    if need_rescan {
        return true;
    }
    if access {
        return false;
    }
    if paths.len() == 0 {
        return true;
    }
    let mut i: usize = 0;
    while i < paths.len()
        invariant
            i <= paths@.len(),
            !access,
            ps == string_lists(paths@),
            rs == string_lists(roots@),
            forall|a: int, b: int| 0 <= a < i && 0 <= b < rs.len() ==> !#[trigger] related_components(ps[a], rs[b]),
        decreases paths.len() - i,
    {
        let path = char_lists(&paths[i]);
        let mut j: usize = 0;
        while j < roots.len()
            invariant
                i < paths@.len(),
                !access,
                j <= roots@.len(),
                ps == string_lists(paths@),
                rs == string_lists(roots@),
                char_vecs(path@) == ps[i as int],
                forall|b: int| 0 <= b < j ==> !#[trigger] related_components(ps[i as int], rs[b]),
            decreases roots.len() - j,
        {
            let root = char_lists(&roots[j]);
            assert(char_vecs(root@) == rs[j as int]);
            if components_under(&path, &root) || components_under(&root, &path) {
                assert(related_components(ps[i as int], rs[j as int]));
                assert(catalog_event_components(need_rescan, access, ps, rs));
                return true;
            }
            j += 1;
        }
        i += 1;
    }
    false
}

/// Whether an application found on disk may be listed.
pub fn usable_path(path: &str) -> (usable: bool)
    ensures
        usable == usable_component_list(path_components_of(path@)),
{
    let parts = path_components(path);
    usable_components(&parts)
}

/// Whether an application path, given by its components as
/// `Path::components` yields them, may be listed.
pub fn usable_components(parts: &[String]) -> (usable: bool)
    ensures
        usable == usable_component_list(parts@.map_values(|c: String| c@)),
{
    let cs = char_lists(parts);
    let ghost v = char_vecs(cs@);
    if !(cs.len() > 0 && is_word(&cs[0], "/")) {
        return false;
    }
    let root = ["/"];
    let volumes = ["/", "Volumes"];
    let system = ["/", "System"];
    let library = ["/", "Library"];
    let applications = ["/", "System", "Applications"];
    let cryptexes = ["/", "System", "Cryptexes", "App", "System", "Applications"];
    let core_applications = ["/", "System", "Library", "CoreServices", "Applications"];
    let finder = ["/", "System", "Library", "CoreServices", "Finder.app"];
    assert(volumes@.map_values(|b: &str| b@) =~= seq!["/"@, "Volumes"@]);
    assert(system@.map_values(|b: &str| b@) =~= seq!["/"@, "System"@]);
    assert(library@.map_values(|b: &str| b@) =~= seq!["/"@, "Library"@]);
    assert(applications@.map_values(|b: &str| b@) =~= seq!["/"@, "System"@, "Applications"@]);
    assert(cryptexes@.map_values(|b: &str| b@) =~= seq!["/"@, "System"@, "Cryptexes"@, "App"@, "System"@, "Applications"@]);
    assert(core_applications@.map_values(|b: &str| b@) =~= seq!["/"@, "System"@, "Library"@, "CoreServices"@, "Applications"@]);
    assert(finder@.map_values(|b: &str| b@) =~= seq!["/"@, "System"@, "Library"@, "CoreServices"@, "Finder.app"@]);
    let is_finder = cs.len() == 5 && starts_under(&cs, &finder);
    proof {
        if cs.len() == 5 {
            assert(v.take(5) == v);
        }
    }
    let system_app = starts_under(&cs, &applications) || starts_under(&cs, &cryptexes)
        || starts_under(&cs, &core_applications) || is_finder;
    if starts_under(&cs, &volumes) || (starts_under(&cs, &system) && !system_app) || starts_under(
        &cs,
        &library,
    ) {
        return false;
    }
    let mut k: usize = 0;
    while k < cs.len()
        invariant
            v == char_vecs(cs@),
            v == parts@.map_values(|c: String| c@),
            k <= cs@.len(),
            forall|j: int| 0 <= j && j + 2 < k ==> !(#[trigger] v[j] == "Users"@ && v[j + 2] == "Library"@),
            forall|j: int| 0 <= j < k ==> !((#[trigger] v[j]).len() > 0 && v[j][0] == '.'),
            forall|j: int| 1 <= j <= k && j < cs@.len() ==> !app_bundle_name(#[trigger] v[j - 1]),
        decreases cs.len() - k,
    {
        assert(v[k as int] == cs@[k as int]@);
        let c = &cs[k];
        if c.len() > 0 && c[0] == '.' {
            assert(v[k as int].len() > 0 && v[k as int][0] == '.');
            assert(hidden_component(v));
            return false;
        }
        if k >= 2 && is_word(&cs[k - 2], "Users") && is_word(c, "Library") {
            assert(v[k - 2] == cs@[k - 2]@);
            assert(v[k - 2] == "Users"@ && v[(k - 2) + 2] == "Library"@);
            assert(in_user_library(v));
            return false;
        }
        if k + 1 < cs.len() && c.len() > 4 {
            let tail = slice_chars(c, c.len() - 4, c.len());
            if is_word(&tail, ".app") {
                assert(app_bundle_name(v[k as int]));
                assert(app_bundle_name(v[(k + 1) - 1]));
                assert(inside_bundle(v));
                return false;
            }
        }
        k += 1;
    }
    assert(!in_user_library(v)) by {
        assert forall|j: int| 0 <= j && j + 2 < v.len() implies !(#[trigger] v[j] == "Users"@ && v[j + 2] == "Library"@) by {}
    }
    true
}

/// The folder paths typed into a settings field: separated by `;`, trimmed,
/// empty ones dropped.
pub open spec fn setting_paths_from(s: Seq<char>, current: Seq<char>) -> Seq<Seq<char>>
    decreases s.len(),
{
    if s.len() == 0 {
        kept(current)
    } else if s[0] == ';' {
        kept(current) + setting_paths_from(s.drop_first(), seq![])
    } else {
        setting_paths_from(s.drop_first(), current.push(s[0]))
    }
}

pub open spec fn kept(piece: Seq<char>) -> Seq<Seq<char>> {
    if trim(piece).len() > 0 {
        seq![trim(piece)]
    } else {
        seq![]
    }
}

/// Splits a `;`-separated list of folders.
pub fn split_paths(text: &str) -> (paths: Vec<String>)
    ensures
        paths@.map_values(|p: String| p@) == setting_paths_from(text@, seq![]),
{
    let v = chars_of(text);
    let mut out: Vec<String> = Vec::new();
    let mut current: Vec<char> = Vec::new();
    let mut i: usize = 0;
    assert(v@.skip(0) == v@);
    while i < v.len()
        invariant
            i <= v@.len(),
            out@.map_values(|p: String| p@) + setting_paths_from(v@.skip(i as int), current@) == setting_paths_from(v@, seq![]),
        decreases v.len() - i,
    {
        assert(v@.skip(i as int).drop_first() == v@.skip(i + 1));
        if v[i] == ';' {
            let piece = trimmed(&current);
            let ghost before = out@.map_values(|p: String| p@);
            if piece.len() > 0 {
                out.push(crate::text::string_of(&piece));
                assert(out@.map_values(|p: String| p@) == before + kept(current@));
            } else {
                assert(before + kept(current@) == before);
            }
            current = Vec::new();
        } else {
            current.push(v[i]);
        }
        i += 1;
    }
    let piece = trimmed(&current);
    let ghost before = out@.map_values(|p: String| p@);
    if piece.len() > 0 {
        out.push(crate::text::string_of(&piece));
        assert(out@.map_values(|p: String| p@) == before + kept(current@));
    } else {
        assert(before + kept(current@) == before);
    }
    out
}

} // verus!
