use winlane::quicklinks::{
    destination, import_entries, matching, matching_lowered, open_with, percent_encode, validate, ExportedLink, OpenWith, Quicklink,
    Template, DUPLICATE_ID, INVALID_DESTINATION, INVALID_ID, INVALID_LINK, INVALID_NAME,
    INVALID_PLACEHOLDER, INVALID_TARGET, LINK_TOO_LONG, TOO_MANY_IMPORTED, TOO_MANY_LINKS,
    TOO_MANY_INPUTS, check_import_size, IMPORT_TOO_LARGE, MAX_IMPORT_BYTES,
};

fn link(id: &str, name: &str, target: &str) -> Quicklink {
    Quicklink { id: id.into(), name: name.into(), link: target.into(), open_with: String::new() }
}

fn entry(name: &str, target: &str, open_with: Option<&str>) -> ExportedLink {
    ExportedLink { name: name.into(), link: target.into(), open_with: open_with.map(String::from) }
}

fn chars(s: &str) -> Vec<char> {
    s.chars().collect()
}

#[test]
fn destinations_that_are_accepted() {
    assert_eq!(destination("https://example.com"), Ok("https://example.com".to_string()));
    assert_eq!(destination("  https://example.com/a b  "), Ok("https://example.com/a b".to_string()));
    assert_eq!(destination("/Users/me/Documents"), Ok("/Users/me/Documents".to_string()));
    assert_eq!(destination("~/Downloads"), Ok("~/Downloads".to_string()));
    assert_eq!(destination("raycast://extensions"), Ok("raycast://extensions".to_string()));
    assert_eq!(destination("mailto:me@example.com"), Ok("mailto:me@example.com".to_string()));
    assert_eq!(destination("HTTP://Example.com"), Ok("HTTP://Example.com".to_string()));
}

#[test]
fn bare_hosts_get_https() {
    assert_eq!(destination("example.com"), Ok("https://example.com".to_string()));
    assert_eq!(destination(" docs.rs/serde "), Ok("https://docs.rs/serde".to_string()));
}

#[test]
fn destinations_that_are_refused() {
    let refused = INVALID_DESTINATION.to_string();
    for value in [
        "",
        "   ",
        "javascript:alert(1)",
        "DATA:text/html,x",
        "vbscript:x",
        "shell:foo",
        "http:/example.com",
        "https:///example.com",
        "https://",
        "https:// example.com",
        "1abc:foo",
        "foo:",
        ":foo",
        "localhost",
        "exa mple.com",
        "https://example.com/\u{7}",
    ] {
        assert_eq!(destination(value), Err(refused.clone()), "{value:?}");
    }
    let long = format!("https://example.com/{}", "a".repeat(16_384));
    assert_eq!(destination(&long), Err(refused));
}

#[test]
fn accepted_destination_is_stable() {
    for value in ["example.com/path", "https://example.com", "~/Notes", "zoommtg://join"] {
        let once = destination(value).unwrap();
        assert_eq!(destination(&once), Ok(once.clone()));
    }
}

#[test]
fn percent_encoding_keeps_unreserved_bytes() {
    assert_eq!(percent_encode(&chars("aZ09-._~")), chars("aZ09-._~"));
    assert_eq!(percent_encode(&chars("a b/é")), chars("a%20b%2F%C3%A9"));
    assert_eq!(percent_encode(&chars("?&=#")), chars("%3F%26%3D%23"));
    assert_eq!(percent_encode(&[]), Vec::<char>::new());
}

#[test]
fn templates_encode_placeholder_values() {
    let template = Template::parse("https://google.com/search?q={Query}").unwrap();
    assert_eq!(template.placeholder_count(), 1);
    assert!(!template.uses_clipboard());
    assert_eq!(
        template.render(&["rust lang".to_string()]),
        Ok("https://google.com/search?q=rust%20lang".to_string())
    );
}

#[test]
fn raw_placeholders_and_paths_are_not_encoded() {
    let raw = Template::parse("https://x.com/?q={Query | raw}").unwrap();
    assert_eq!(raw.render(&["a b".to_string()]), Ok("https://x.com/?q=a b".to_string()));
    let path = Template::parse("/Users/me/{Folder}").unwrap();
    assert_eq!(path.render(&["a b".to_string()]), Ok("/Users/me/a b".to_string()));
}

#[test]
fn escaped_braces_are_literal() {
    let template = Template::parse("https://x.com/\\{a}").unwrap();
    assert_eq!(template.placeholder_count(), 0);
    assert_eq!(template.render(&[]), Ok("https://x.com/{a}".to_string()));
}

#[test]
fn several_placeholders_expand_in_order() {
    let template = Template::parse("https://x.com/{argument}/{argument}?c={clipboard}").unwrap();
    assert_eq!(template.placeholder_count(), 3);
    assert!(template.uses_clipboard());
    assert_eq!(
        template.render(&["one".to_string(), "two".to_string(), "x y".to_string()]),
        Ok("https://x.com/one/two?c=x%20y".to_string())
    );
}

#[test]
fn invalid_templates() {
    assert_eq!(Template::parse("   ").err(), Some(INVALID_LINK.to_string()));
    assert_eq!(Template::parse("https://x.com/\u{0}").err(), Some(INVALID_LINK.to_string()));
    assert_eq!(Template::parse(&"a".repeat(16_385)).err(), Some(INVALID_LINK.to_string()));
    for link in [
        "https://x.com/{a=b}",
        "https://x.com/{x | upper}",
        "https://x.com/{abc",
        "https://x.com/{}",
        "https://x.com/{\"q\"}",
    ] {
        assert_eq!(Template::parse(link).err(), Some(INVALID_PLACEHOLDER.to_string()), "{link}");
    }
}

#[test]
fn rendering_checks_length_and_destination() {
    let raw = Template::parse("https://x.com/{Q|raw}").unwrap();
    assert_eq!(raw.render(&["a".repeat(17_000)]), Err(LINK_TOO_LONG.to_string()));
    let bare = Template::parse("{Q}").unwrap();
    assert_eq!(bare.render(&["not a url".to_string()]), Err(INVALID_DESTINATION.to_string()));
    assert_eq!(bare.render(&["docs.rs".to_string()]), Ok("https://docs.rs".to_string()));
}

#[test]
fn quicklink_validation_messages() {
    assert_eq!(link("a", "Docs", "https://docs.rs").validate(), Ok(()));
    assert_eq!(link("", "Docs", "https://docs.rs").validate(), Err(INVALID_ID.to_string()));
    assert_eq!(link(&"i".repeat(101), "Docs", "https://docs.rs").validate(), Err(INVALID_ID.to_string()));
    assert_eq!(link("a", "  ", "https://docs.rs").validate(), Err(INVALID_NAME.to_string()));
    assert_eq!(link("a", &"n".repeat(121), "https://docs.rs").validate(), Err(INVALID_NAME.to_string()));
    let mut target = link("a", "Docs", "https://docs.rs");
    target.open_with = "Safari\u{7}".into();
    assert_eq!(target.validate(), Err(INVALID_TARGET.to_string()));
    assert_eq!(link("a", "Docs", "").validate(), Err(INVALID_LINK.to_string()));
    assert_eq!(link("a", "Docs", "not a url").validate(), Err(INVALID_DESTINATION.to_string()));
    assert_eq!(link("a", "Docs", " docs.rs ").validate(), Ok(()));
    assert_eq!(link("a", "Docs", "https://x.com/{a=b}").validate(), Err(INVALID_PLACEHOLDER.to_string()));
}

#[test]
fn link_lists_need_unique_ids_and_at_most_200_links() {
    let links = vec![link("a", "A", "https://a.com"), link("b", "B", "https://b.com")];
    assert_eq!(validate(&links), Ok(()));
    let twice = vec![link("a", "A", "https://a.com"), link("a", "B", "https://b.com")];
    assert_eq!(validate(&twice), Err(DUPLICATE_ID.to_string()));
    let many: Vec<Quicklink> = (0..201).map(|i| link(&format!("q{i}"), "Q", "https://q.com")).collect();
    assert_eq!(validate(&many), Err(TOO_MANY_LINKS.to_string()));
    let bad = vec![link("a", "A", "https://a.com"), link("", "B", "https://b.com")];
    assert_eq!(validate(&bad), Err(INVALID_ID.to_string()));
}

#[test]
fn matching_ranks_names_before_addresses() {
    let links = vec![
        link("1", "Google", "https://google.com"),
        link("2", "Go Docs", "https://go.dev"),
        link("3", "Maps", "https://maps.google.com"),
    ];
    assert_eq!(matching(&links, "go"), vec![0, 1, 2]);
    assert_eq!(matching(&links, "docs go"), vec![1]);
    assert_eq!(matching(&links, "maps"), vec![2]);
    assert_eq!(matching(&links, ""), vec![0, 1, 2]);
    assert_eq!(matching(&links, "  GOOGLE "), vec![0, 2]);
    assert_eq!(matching(&links, "zzz"), Vec::<usize>::new());
    let names = vec![link("1", "Docs", "https://a.com"), link("2", "My Docs", "https://b.com"), link("3", "docs", "https://c.com")];
    assert_eq!(matching(&names, "docs"), vec![0, 2, 1]);
}

#[test]
fn import_adds_trimmed_links_with_hashed_ids() {
    let result = import_entries(&[], &[entry(" Docs ", " https://docs.rs ", None)]).unwrap();
    assert_eq!(result.added, 1);
    assert_eq!(result.skipped, 0);
    assert_eq!(result.links.len(), 1);
    let imported = &result.links[0];
    assert_eq!(imported.name, "Docs");
    assert_eq!(imported.link, "https://docs.rs");
    assert_eq!(imported.open_with, "");
    assert_eq!(
        imported.id,
        "import-0c94e5cc2d32263557e7175f4d9877ae194d342d818db06580184c0647eab545"
    );
}

#[test]
fn importing_again_adds_nothing() {
    let entries = vec![entry("Docs", "https://docs.rs", None), entry("Maps", "maps.google.com", Some("Safari"))];
    let first = import_entries(&[], &entries).unwrap();
    assert_eq!((first.added, first.skipped), (2, 0));
    let second = import_entries(&first.links, &entries).unwrap();
    assert_eq!((second.added, second.skipped), (0, 2));
    assert_eq!(second.links, first.links);
}

#[test]
fn duplicates_within_one_import_are_skipped() {
    let entries = vec![entry("Docs", "https://docs.rs", None), entry(" Docs", "https://docs.rs ", Some(""))];
    let result = import_entries(&[link("x", "Other", "https://o.com")], &entries).unwrap();
    assert_eq!((result.added, result.skipped), (1, 1));
    assert_eq!(result.links.len(), 2);
    assert_eq!(result.links[0], link("x", "Other", "https://o.com"));
}

#[test]
fn taken_import_ids_get_an_x() {
    let id = "import-0c94e5cc2d32263557e7175f4d9877ae194d342d818db06580184c0647eab545";
    let existing = vec![link(id, "Other", "https://o.com")];
    let result = import_entries(&existing, &[entry("Docs", "https://docs.rs", None)]).unwrap();
    assert_eq!(result.links[1].id, format!("{id}x"));
}

#[test]
fn import_errors() {
    assert_eq!(
        import_entries(&[], &[entry("Docs", "   ", None)]).err(),
        Some("Link 1 is invalid: Enter a link or absolute path, up to 16 KB.".to_string())
    );
    assert_eq!(
        import_entries(&[], &[entry("A", "https://a.com", None), entry("", "https://b.com", None)]).err(),
        Some("Link 2 is invalid: Enter a name, up to 120 characters.".to_string())
    );
    let many: Vec<ExportedLink> = (0..201).map(|i| entry(&format!("L{i}"), "https://l.com", None)).collect();
    assert_eq!(import_entries(&[], &many).err(), Some(TOO_MANY_IMPORTED.to_string()));
    let existing: Vec<Quicklink> = (0..200).map(|i| link(&format!("q{i}"), "Q", "https://q.com")).collect();
    assert_eq!(
        import_entries(&existing, &[entry("New", "https://new.com", None)]).err(),
        Some(TOO_MANY_LINKS.to_string())
    );
}

#[test]
fn encoded_values_cannot_change_the_link_structure() {
    let encoded = percent_encode(&chars("a/b?c&d#e f:g@h"));
    for c in ['/', '?', '&', '#', ' ', ':', '@'] {
        assert!(!encoded.contains(&c), "{c}");
    }
    assert!(encoded.iter().all(|c| c.is_ascii_alphanumeric() || "-._~%".contains(*c)));
}

#[test]
fn import_keeps_existing_links_in_front() {
    let existing = vec![link("x", "Other", "https://o.com"), link("y", "Docs", "https://docs.rs")];
    let entries = vec![
        entry("Docs", "https://docs.rs", None),
        entry("New", "https://new.com", None),
        entry("More", "more.com", None),
    ];
    let result = import_entries(&existing, &entries).unwrap();
    assert_eq!(result.links[..2], existing[..]);
    assert_eq!(result.added + result.skipped, entries.len());
    assert_eq!(result.links.len(), existing.len() + result.added);
    assert_eq!((result.added, result.skipped), (2, 1));
}

#[test]
fn open_with_tells_bundle_ids_from_application_names() {
    assert_eq!(open_with(""), OpenWith::Default);
    assert_eq!(open_with("   "), OpenWith::Default);
    assert_eq!(open_with("com.apple.Safari"), OpenWith::BundleId("com.apple.Safari".into()));
    assert_eq!(open_with(" org.mozilla "), OpenWith::BundleId("org.mozilla".into()));
    assert_eq!(open_with(" Safari "), OpenWith::Application("Safari".into()));
    assert_eq!(open_with("Firefox.app"), OpenWith::Application("Firefox.app".into()));
    assert_eq!(open_with("Google Chrome.app"), OpenWith::Application("Google Chrome.app".into()));
    assert_eq!(open_with("/Applications/Safari.app"), OpenWith::Application("/Applications/Safari.app".into()));
    assert_eq!(open_with("my.app"), OpenWith::Application("my.app".into()));
}

#[test]
fn placeholders_stand_for_snippet_placeholders() {
    let template = Template::parse("https://x.com/{Query}/{argument}/{argument | raw}/{date}/{Search Term}").unwrap();
    assert_eq!(
        template.sources(),
        vec![
            "argument name=\"Query\"".to_string(),
            "argument name=\"Value 1\"".to_string(),
            "argument name=\"Value 2\"".to_string(),
            "date".to_string(),
            "argument name=\"Search Term\"".to_string(),
        ]
    );
    let quoted = Template::parse("https://x.com/{a\\b}").unwrap();
    assert_eq!(quoted.sources(), vec!["argument name=\"a\\\\b\"".to_string()]);
}

#[test]
fn at_most_eight_input_fields() {
    let eight = "https://x.com/{a}{b}{c}{d}{e}{f}{g}{h}";
    assert_eq!(Template::parse(eight).unwrap().placeholder_count(), 8);
    let nine = "https://x.com/{a}{b}{c}{d}{e}{f}{g}{h}{i}";
    assert_eq!(Template::parse(nine).err(), Some(TOO_MANY_INPUTS.to_string()));
    let unnamed = "https://x.com/{argument}".repeat(1) + &"{argument}".repeat(8);
    assert_eq!(Template::parse(&unnamed).err(), Some(TOO_MANY_INPUTS.to_string()));
    // The same name shares one field, raw or not.
    let shared = "https://x.com/{q}{q|raw}{a}{b}{c}{d}{e}{f}{g}{q}";
    assert_eq!(Template::parse(shared).unwrap().placeholder_count(), 10);
    // Clipboard and dates are not input fields.
    let others = "https://x.com/{a}{b}{c}{d}{e}{f}{g}{h}{clipboard}{date}";
    assert!(Template::parse(others).is_ok());
    // The first problem from the left is reported.
    let limit_first = "https://x.com/{a}{b}{c}{d}{e}{f}{g}{h}{i}{x=y}";
    assert_eq!(Template::parse(limit_first).err(), Some(TOO_MANY_INPUTS.to_string()));
    let invalid_first = "https://x.com/{x=y}{a}{b}{c}{d}{e}{f}{g}{h}{i}";
    assert_eq!(Template::parse(invalid_first).err(), Some(INVALID_PLACEHOLDER.to_string()));
}

#[test]
fn links_with_placeholders_are_checked_with_sample_values() {
    assert_eq!(link("a", "Bad", "javascript:{q}").validate(), Err(INVALID_DESTINATION.to_string()));
    assert_eq!(link("a", "Search", "https://x.com/?q={Query}").validate(), Ok(()));
    assert_eq!(link("a", "Bare", "{Query}").validate(), Err(INVALID_DESTINATION.to_string()));
    assert_eq!(link("a", "Date", "{date}").validate(), Err(INVALID_DESTINATION.to_string()));
    assert_eq!(link("a", "Clip", "{clipboard}").validate(), Ok(()));
    assert_eq!(link("a", "Raw", "{clipboard | raw}").validate(), Ok(()));
    assert_eq!(link("a", "Path", "/Users/me/{Folder}").validate(), Ok(()));
    let long = format!("https://x.com/{}{{q}}", "a".repeat(16_366));
    assert_eq!(link("a", "Long", &long).validate(), Err(LINK_TOO_LONG.to_string()));
}

#[test]
fn import_size_limit() {
    assert_eq!(check_import_size(MAX_IMPORT_BYTES), Ok(()));
    assert_eq!(check_import_size(0), Ok(()));
    assert_eq!(check_import_size(MAX_IMPORT_BYTES + 1), Err(IMPORT_TOO_LARGE.to_string()));
}

#[test]
fn matching_over_lowered_names_and_addresses() {
    let names = vec!["google".to_string(), "go docs".to_string(), "maps".to_string()];
    let addresses = vec!["https://google.com".to_string(), "https://go.dev".to_string(), "https://maps.google.com".to_string()];
    assert_eq!(matching_lowered("go", &names, &addresses), vec![0, 1, 2]);
    assert_eq!(matching_lowered("google", &names, &addresses), vec![0, 2]);
    assert_eq!(matching_lowered("docs go", &names, &addresses), vec![1]);
    // Nothing is lowercased here: an uppercase query finds nothing.
    assert_eq!(matching_lowered("GO", &names, &addresses), Vec::<usize>::new());
}
