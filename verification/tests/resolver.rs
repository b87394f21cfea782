use link_extractor::{base_host, paths_to_expand, resolve_link, same_host, Resolution};

fn text(s: &str) -> String {
    s.to_string()
}

#[test]
fn resolve_link_reads_an_absolute_location() {
    assert_eq!(
        resolve_link("https://evil.example/x.js"),
        Resolution::Absolute { host: Some(text("evil.example")), path: text("/x.js") }
    );
    assert_eq!(
        resolve_link("http://localhost/homepage/assets/?q=1#top"),
        Resolution::Absolute { host: Some(text("localhost")), path: text("/homepage/assets/") }
    );
}

#[test]
fn resolve_link_reads_a_location_without_a_path() {
    assert_eq!(
        resolve_link("http://localhost"),
        Resolution::Absolute { host: Some(text("localhost")), path: text("/") }
    );
}

#[test]
fn resolve_link_reads_a_numeric_host() {
    assert_eq!(
        resolve_link("http://127.0.0.1:8080/a"),
        Resolution::Absolute { host: Some(text("127.0.0.1")), path: text("/a") }
    );
}

#[test]
fn resolve_link_reads_a_location_without_a_host() {
    assert_eq!(
        resolve_link("mailto:someone@example.com"),
        Resolution::Absolute { host: None, path: text("someone@example.com") }
    );
}

#[test]
fn resolve_link_takes_a_link_without_scheme_as_a_relative_path() {
    assert_eq!(resolve_link("/login"), Resolution::Relative { path: text("/login") });
    assert_eq!(
        resolve_link("homepage/assets/img/icons/handshake.svg"),
        Resolution::Relative { path: text("homepage/assets/img/icons/handshake.svg") }
    );
    assert_eq!(resolve_link("../main.css"), Resolution::Relative { path: text("../main.css") });
    assert_eq!(
        resolve_link("//evil.example/x.js"),
        Resolution::Relative { path: text("//evil.example/x.js") }
    );
    assert_eq!(resolve_link(""), Resolution::Relative { path: text("") });
}

#[test]
fn resolve_link_reports_what_it_cannot_read() {
    assert_eq!(
        resolve_link("https://"),
        Resolution::Unparseable { reason: text("empty host") }
    );
    assert_eq!(
        resolve_link("http://localhost:port/"),
        Resolution::Unparseable { reason: text("invalid port number") }
    );
    assert_eq!(
        resolve_link("http://exa mple.com/x.js"),
        Resolution::Unparseable { reason: text("invalid international domain name") }
    );
}

#[test]
fn base_host_is_the_host_of_an_absolute_base() {
    assert_eq!(base_host("http://localhost/"), Some(text("localhost")));
    assert_eq!(base_host("https://user:pw@Example.COM:8443/a/b?c#d"), Some(text("example.com")));
    assert_eq!(base_host("http://10.0.0.1/"), Some(text("10.0.0.1")));
}

#[test]
fn base_host_is_none_without_a_host_or_without_a_location() {
    assert_eq!(base_host("mailto:someone@example.com"), None);
    assert_eq!(base_host("/login"), None);
    assert_eq!(base_host("https://"), None);
    assert_eq!(base_host(""), None);
}

#[test]
fn same_host_compares_presence_and_text() {
    assert!(same_host(&Some(text("localhost")), &Some(text("localhost"))));
    assert!(same_host(&None, &None));
    assert!(!same_host(&Some(text("localhost")), &Some(text("evil.example"))));
    assert!(!same_host(&Some(text("localhost")), &None));
    assert!(!same_host(&None, &Some(text("localhost"))));
    assert!(!same_host(&Some(text("localhost")), &Some(text("localhost."))));
}

#[test]
fn paths_to_expand_follows_an_absolute_link_on_the_same_host() {
    let candidate =
        Resolution::Absolute { host: Some(text("localhost")), path: text("/a/b/c.js") };
    assert_eq!(
        paths_to_expand(&candidate, &Some(text("localhost"))),
        vec![text("a/b/c.js"), text("a/b"), text("a")]
    );
}

#[test]
fn paths_to_expand_drops_an_absolute_link_on_another_host() {
    let candidate = Resolution::Absolute { host: Some(text("evil.example")), path: text("/x.js") };
    assert_eq!(paths_to_expand(&candidate, &Some(text("localhost"))), Vec::<String>::new());
    assert_eq!(paths_to_expand(&candidate, &None), Vec::<String>::new());
    let hostless = Resolution::Absolute { host: None, path: text("someone@example.com") };
    assert_eq!(paths_to_expand(&hostless, &Some(text("localhost"))), Vec::<String>::new());
}

#[test]
fn paths_to_expand_compares_hosts_not_numbers_alone() {
    let candidate = Resolution::Absolute { host: Some(text("10.0.0.2")), path: text("/secret") };
    assert_eq!(paths_to_expand(&candidate, &Some(text("10.0.0.1"))), Vec::<String>::new());
    assert_eq!(paths_to_expand(&candidate, &Some(text("10.0.0.2"))), vec![text("secret")]);
}

#[test]
fn paths_to_expand_follows_a_relative_link() {
    let candidate = Resolution::Relative { path: text("/homepage/assets/") };
    assert_eq!(
        paths_to_expand(&candidate, &Some(text("localhost"))),
        vec![text("homepage/assets"), text("homepage")]
    );
    assert_eq!(
        paths_to_expand(&candidate, &None),
        vec![text("homepage/assets"), text("homepage")]
    );
}

#[test]
fn paths_to_expand_drops_what_could_not_be_read() {
    let candidate = Resolution::Unparseable { reason: text("empty host") };
    assert_eq!(paths_to_expand(&candidate, &Some(text("localhost"))), Vec::<String>::new());
}
