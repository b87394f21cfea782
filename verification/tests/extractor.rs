use link_extractor::{
    add_link_to_set_of_links, get_links, links_from_matches, Diagnostic, LinkSet, LINKFINDER_REGEX,
};

fn text(s: &str) -> String {
    s.to_string()
}

fn sorted(links: LinkSet) -> Vec<String> {
    let mut items = links.into_vec();
    items.sort();
    items
}

#[test]
fn get_links_expands_a_relative_file_path_into_all_its_ancestors() {
    let found = get_links(
        "http://localhost/",
        "<img src=\"homepage/assets/img/icons/handshake.svg\">",
    );
    for expected in [
        "http://localhost/homepage",
        "http://localhost/homepage/assets",
        "http://localhost/homepage/assets/img",
        "http://localhost/homepage/assets/img/icons",
        "http://localhost/homepage/assets/img/icons/handshake.svg",
    ] {
        assert!(found.links.contains(expected));
    }
    assert_eq!(found.links.len(), 5);
    assert_eq!(found.diagnostics, Vec::<Diagnostic>::new());
}

#[test]
fn get_links_drops_a_link_to_another_host() {
    let found = get_links(
        "http://localhost/",
        "<script src=\"https://evil.example/x.js\"></script>",
    );
    for link in found.links.into_vec() {
        assert!(!link.contains("evil.example"));
    }
    let again = get_links(
        "http://localhost/",
        "<script src=\"https://evil.example/x.js\"></script>",
    );
    assert!(again.links.is_empty());
    assert_eq!(again.diagnostics, Vec::<Diagnostic>::new());
}

#[test]
fn get_links_joins_a_rooted_path_to_the_base() {
    let found = get_links("http://localhost/", "<a href=\"/login\">log in</a>");
    assert_eq!(found.links.into_vec(), vec![text("http://localhost/login")]);
    assert_eq!(found.diagnostics, Vec::<Diagnostic>::new());
}

#[test]
fn get_links_twice_gives_the_same_set() {
    let base = "http://www.example.com/dir/page.html";
    let body = "<a href='/login'>x</a> <img src=\"img/logo.png\"> \
                <script src='https://evil.example/x.js'></script> \
                <a href=\"http://www.example.com/admin/panel.php?x=1\">y</a>";
    let first = get_links(base, body);
    let second = get_links(base, body);
    assert_eq!(first.diagnostics, second.diagnostics);
    let first = sorted(first.links);
    let second = sorted(second.links);
    assert_eq!(first, second);
    assert_eq!(
        first,
        vec![
            text("http://www.example.com/dir/admin"),
            text("http://www.example.com/dir/admin/panel.php"),
            text("http://www.example.com/dir/img"),
            text("http://www.example.com/dir/img/logo.png"),
            text("http://www.example.com/dir/login"),
        ]
    );
}

#[test]
fn get_links_follows_an_absolute_link_on_the_same_host() {
    let found = get_links(
        "http://www.example.com/",
        "var u = \"http://www.example.com/homepage/assets/app.js?v=3\";",
    );
    assert_eq!(
        sorted(found.links),
        vec![
            text("http://www.example.com/homepage"),
            text("http://www.example.com/homepage/assets"),
            text("http://www.example.com/homepage/assets/app.js"),
        ]
    );
}

#[test]
fn get_links_keeps_the_host_whatever_the_scheme() {
    let found =
        get_links("http://www.example.com/", "'https://www.example.com/secure/login.php'");
    assert_eq!(
        sorted(found.links),
        vec![
            text("http://www.example.com/secure"),
            text("http://www.example.com/secure/login.php"),
        ]
    );
}

#[test]
fn get_links_holds_each_location_once() {
    let found = get_links(
        "http://localhost/",
        "'/static/a.js' \"/static/b.js\" '/static/a.js' 'static/a.js'",
    );
    assert_eq!(
        sorted(found.links),
        vec![
            text("http://localhost/static"),
            text("http://localhost/static/a.js"),
            text("http://localhost/static/b.js"),
        ]
    );
}

#[test]
fn get_links_gives_only_absolute_locations() {
    let found = get_links(
        "http://localhost/a/b/",
        "'../up/one.html' './here/two.html' 'three.json' '/root/four.txt'",
    );
    let links = found.links.into_vec();
    assert!(!links.is_empty());
    for link in links {
        assert!(link.starts_with("http://localhost/"));
    }
}

#[test]
fn get_links_finds_nothing_in_text_without_links() {
    let found = get_links("http://localhost/", "nothing to see here, move along");
    assert!(found.links.is_empty());
    assert_eq!(found.diagnostics, Vec::<Diagnostic>::new());
    let found = get_links("http://localhost/", "");
    assert!(found.links.is_empty());
    assert_eq!(found.diagnostics, Vec::<Diagnostic>::new());
}

#[test]
fn get_links_ignores_links_without_quotes() {
    let found = get_links("http://localhost/", "see /login or http://localhost/admin.php");
    assert!(found.links.is_empty());
}

#[test]
fn get_links_finds_bare_file_names_with_known_extensions() {
    let found = get_links("http://localhost/app/", "fetch('config.json'); load(\"notes.md\");");
    assert_eq!(found.links.into_vec(), vec![text("http://localhost/app/config.json")]);
}

#[test]
fn get_links_reports_a_match_that_cannot_be_read() {
    let found = get_links("http://localhost/", "'http://exa mple.com/x.js' '/login'");
    assert_eq!(found.links.into_vec(), vec![text("http://localhost/login")]);
    assert_eq!(
        found.diagnostics,
        vec![Diagnostic::Link {
            link: text("http://exa mple.com/x.js"),
            reason: text("invalid international domain name"),
        }]
    );
}

#[test]
fn get_links_reports_each_path_that_cannot_be_joined() {
    let found = get_links("mailto:someone@example.com", "'/a/b.js'");
    assert!(found.links.is_empty());
    assert_eq!(
        found.diagnostics,
        vec![
            Diagnostic::Join {
                path: text("a/b.js"),
                reason: text("relative URL with a cannot-be-a-base base"),
            },
            Diagnostic::Join {
                path: text("a"),
                reason: text("relative URL with a cannot-be-a-base base"),
            },
        ]
    );
}

#[test]
fn get_links_with_a_base_that_is_no_location_finds_nothing() {
    let found = get_links("not a location", "'/login'");
    assert!(found.links.is_empty());
    assert_eq!(
        found.diagnostics,
        vec![Diagnostic::Join { path: text("login"), reason: text("relative URL without a base") }]
    );
}

#[test]
fn links_from_matches_resolves_each_match_in_turn() {
    let matches = vec![
        text("/login"),
        text("https://evil.example/x.js"),
        text("https://"),
        text("http://localhost/a/b"),
    ];
    let found = links_from_matches("http://localhost/", &matches);
    assert_eq!(
        found.links.into_vec(),
        vec![
            text("http://localhost/login"),
            text("http://localhost/a/b"),
            text("http://localhost/a"),
        ]
    );
    assert_eq!(
        found.diagnostics,
        vec![Diagnostic::Link { link: text("https://"), reason: text("empty host") }]
    );
}

#[test]
fn links_from_matches_takes_each_match_as_it_is_given() {
    let found = links_from_matches("http://localhost/", &vec![text("'/login'")]);
    assert_eq!(
        found.links.into_vec(),
        vec![text("http://localhost/'/login'"), text("http://localhost/'")]
    );
}

#[test]
fn links_from_matches_of_no_match_is_empty() {
    let found = links_from_matches("http://localhost/", &Vec::new());
    assert!(found.links.is_empty());
    assert_eq!(found.diagnostics, Vec::<Diagnostic>::new());
}

#[test]
fn links_from_matches_is_unchanged_by_a_match_on_another_host() {
    let with = vec![text("/a"), text("http://evil.example/b"), text("/c")];
    let without = vec![text("/a"), text("/c")];
    let with = links_from_matches("http://localhost/", &with);
    let without = links_from_matches("http://localhost/", &without);
    assert_eq!(with.links.into_vec(), without.links.into_vec());
    assert_eq!(with.diagnostics, without.diagnostics);
}

#[test]
fn add_link_joins_a_single_segment_below_the_base_directory() {
    let mut links = LinkSet::new();
    let problem = add_link_to_set_of_links("homepage", "http://localhost/dir/page.html", &mut links);
    assert_eq!(problem, None);
    assert_eq!(links.into_vec(), vec![text("http://localhost/dir/homepage")]);
}

#[test]
fn add_link_joins_below_a_base_that_ends_in_a_slash() {
    let mut links = LinkSet::new();
    let problem = add_link_to_set_of_links("homepage/assets", "http://localhost/dir/", &mut links);
    assert_eq!(problem, None);
    assert_eq!(links.into_vec(), vec![text("http://localhost/dir/homepage/assets")]);
}

#[test]
fn add_link_adds_to_what_is_there_and_holds_it_once() {
    let mut links = LinkSet::new();
    links.insert(text("http://localhost/login"));
    assert_eq!(add_link_to_set_of_links("login", "http://localhost/", &mut links), None);
    assert_eq!(add_link_to_set_of_links("admin", "http://localhost/", &mut links), None);
    assert_eq!(
        links.into_vec(),
        vec![text("http://localhost/login"), text("http://localhost/admin")]
    );
}

#[test]
fn add_link_reads_the_link_as_a_reference_not_as_text_to_append() {
    let mut links = LinkSet::new();
    assert_eq!(add_link_to_set_of_links("a/../b", "http://localhost/x/y", &mut links), None);
    assert_eq!(add_link_to_set_of_links("c?d=e#f", "http://localhost/x/y", &mut links), None);
    assert_eq!(add_link_to_set_of_links("#top", "http://localhost/x/y?q", &mut links), None);
    assert_eq!(add_link_to_set_of_links("https:other.example", "http://localhost/", &mut links), None);
    assert_eq!(
        links.into_vec(),
        vec![
            text("http://localhost/x/b"),
            text("http://localhost/x/c?d=e#f"),
            text("http://localhost/x/y?q#top"),
            text("https://other.example/"),
        ]
    );
}

#[test]
fn add_link_reports_a_link_that_cannot_be_joined_and_leaves_the_set() {
    let mut links = LinkSet::new();
    links.insert(text("http://localhost/login"));
    let problem = add_link_to_set_of_links("admin", "mailto:someone@example.com", &mut links);
    assert_eq!(
        problem,
        Some(Diagnostic::Join {
            path: text("admin"),
            reason: text("relative URL with a cannot-be-a-base base"),
        })
    );
    assert_eq!(links.into_vec(), vec![text("http://localhost/login")]);
}

#[test]
fn add_link_reports_a_reference_with_a_bad_host() {
    let mut links = LinkSet::new();
    let problem = add_link_to_set_of_links("http://exa mple.com/", "http://localhost/", &mut links);
    assert_eq!(
        problem,
        Some(Diagnostic::Join {
            path: text("http://exa mple.com/"),
            reason: text("invalid international domain name"),
        })
    );
    assert!(links.is_empty());
}

#[test]
fn diagnostics_say_what_failed_and_why() {
    assert_eq!(
        Diagnostic::Link { link: text("https://"), reason: text("empty host") }.message(),
        "Could not parse given url: empty host"
    );
    assert_eq!(
        Diagnostic::Join { path: text("a"), reason: text("relative URL without a base") }
            .message(),
        "Could not join given url to the base url: relative URL without a base"
    );
    assert_eq!(
        Diagnostic::Pattern { reason: text("unclosed group") }.message(),
        "Could not compile the link pattern: unclosed group"
    );
}

#[test]
fn the_link_pattern_is_one_the_engine_accepts() {
    let found = get_links("http://localhost/", "'/login'");
    for problem in &found.diagnostics {
        assert!(!matches!(problem, Diagnostic::Pattern { .. }));
    }
    assert!(LINKFINDER_REGEX.starts_with("(?:\"|')"));
    assert!(LINKFINDER_REGEX.ends_with("(?:\"|')"));
}
