use winlane::paths::{affects_catalog, affects_catalog_components, split_paths, usable_components, usable_path};

#[test]
fn applications_that_may_be_listed() {
    for path in [
        "/Applications/Safari.app",
        "/Applications/Utilities/Terminal.app",
        "/System/Applications/Notes.app",
        "/System/Cryptexes/App/System/Applications/Safari.app",
        "/System/Library/CoreServices/Applications/Screen Sharing.app",
        "/System/Library/CoreServices/Finder.app",
        "/Users/me/Applications/Tool.app",
    ] {
        assert!(usable_path(path), "{path}");
    }
}

#[test]
fn applications_that_are_skipped() {
    for path in [
        "Applications/Safari.app",
        "/Volumes/Disk/App.app",
        "/System/Library/Frameworks/X.app",
        "/Library/Application Support/X.app",
        "/Users/me/Library/Caches/X.app",
        "/Applications/.hidden/X.app",
        "/Applications/.X.app",
        "/Applications/Outer.app/Contents/Helper.app",
    ] {
        assert!(!usable_path(path), "{path}");
    }
}

#[test]
fn folder_lists_split_on_semicolons() {
    assert_eq!(split_paths("a; b ;;  ; c"), vec!["a", "b", "c"]);
    assert_eq!(split_paths(""), Vec::<String>::new());
    assert_eq!(split_paths("  ~/Projects  "), vec!["~/Projects"]);
    assert_eq!(split_paths(";;"), Vec::<String>::new());
}

fn strings(items: &[&str]) -> Vec<String> {
    items.iter().map(|s| s.to_string()).collect()
}

#[test]
fn catalog_events_inside_or_above_a_root() {
    let roots = strings(&["/Applications", "/Users/me/Applications"]);
    assert!(affects_catalog(true, true, &[], &roots));
    assert!(!affects_catalog(false, true, &strings(&["/Applications/X.app"]), &roots));
    assert!(affects_catalog(false, false, &[], &roots));
    assert!(affects_catalog(false, false, &strings(&["/Applications/X.app"]), &roots));
    assert!(affects_catalog(false, false, &strings(&["/tmp/a", "/Users/me"]), &roots));
    assert!(affects_catalog(false, false, &strings(&["/"]), &roots));
}

#[test]
fn catalog_events_elsewhere_are_ignored() {
    let roots = strings(&["/Applications"]);
    assert!(!affects_catalog(false, false, &strings(&["/Applicationsfoo/x"]), &roots));
    assert!(!affects_catalog(false, false, &strings(&["/tmp/x", "/Users"]), &roots));
    assert!(!affects_catalog(false, false, &strings(&["/Applications/X.app"]), &[]));
}

fn parts(items: &[&str]) -> Vec<String> {
    items.iter().map(|s| s.to_string()).collect()
}

#[test]
fn component_lists_decide_like_paths() {
    assert!(usable_components(&parts(&["/", "Applications", "Safari.app"])));
    assert!(!usable_components(&parts(&["/", "Volumes", "X.app"])));
    assert!(!usable_components(&parts(&["Applications", "X.app"])));
    assert!(!usable_components(&parts(&["/", "Users", "me", "Library", "X.app"])));
    assert!(!usable_components(&[]));
    let roots = vec![parts(&["/", "Applications"])];
    assert!(affects_catalog_components(false, false, &[parts(&["/", "Applications", "X.app"])], &roots));
    assert!(!affects_catalog_components(false, false, &[parts(&["/", "Applicationsfoo"])], &roots));
    assert!(affects_catalog_components(false, false, &[parts(&["/"])], &roots));
}
