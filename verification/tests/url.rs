use depgraph::url::to_raw_url;

#[test]
fn raw_url_drops_suffix_and_switches_host() {
    assert_eq!(
        to_raw_url("https://github.com/org/dep1.git", "v1.0"),
        "https://raw.githubusercontent.com/org/dep1/v1.0/build_depends.repos"
    );
}

#[test]
fn raw_url_without_suffix() {
    assert_eq!(
        to_raw_url("https://github.com/autowarefoundation/autoware", "main"),
        "https://raw.githubusercontent.com/autowarefoundation/autoware/main/build_depends.repos"
    );
}

#[test]
fn raw_urls_of_two_versions_differ() {
    assert_ne!(
        to_raw_url("https://github.com/org/dep.git", "v1"),
        to_raw_url("https://github.com/org/dep.git", "v2")
    );
}

#[test]
fn raw_url_of_a_malformed_address_is_still_an_address() {
    assert_eq!(to_raw_url("", ""), "//build_depends.repos");
    assert_eq!(to_raw_url("not a url", "1"), "not a url/1/build_depends.repos");
}

#[test]
fn raw_url_drops_the_suffix_only_at_the_end() {
    assert_eq!(
        to_raw_url("https://github.com/o/my.gitops.git", "v1"),
        "https://raw.githubusercontent.com/o/my.gitops/v1/build_depends.repos"
    );
    assert_eq!(
        to_raw_url("https://github.com/o/my.gitops", "v1"),
        "https://raw.githubusercontent.com/o/my.gitops/v1/build_depends.repos"
    );
    assert_eq!(
        to_raw_url("https://github.com/o/r.git.git", "v1"),
        "https://raw.githubusercontent.com/o/r.git/v1/build_depends.repos"
    );
}

#[test]
fn raw_url_keeps_a_suffix_inside_the_host() {
    assert_eq!(
        to_raw_url("https://x.github.com/a", "v"),
        "https://x.raw.githubusercontent.com/a/v/build_depends.repos"
    );
}

#[test]
fn raw_url_of_the_bare_suffix() {
    assert_eq!(to_raw_url(".git", "v"), "/v/build_depends.repos");
}
