use cardbe::links::{check_external_url, is_allowed_external_url, is_allowed_scheme};
use cardbe::update::{compare_versions, find_update, is_valid_github_segment, parse_version, GitHubRelease};
use std::cmp::Ordering;

#[test]
fn accepts_github_owner_and_repository_names() {
    assert!(is_valid_github_segment("valid-owner"));
    assert!(is_valid_github_segment("valid.repository_1"));
}

#[test]
fn rejects_values_that_could_change_the_release_url() {
    assert!(!is_valid_github_segment(""));
    assert!(!is_valid_github_segment("owner/repository"));
    assert!(!is_valid_github_segment("github.com?next="));
}

#[test]
fn allows_only_http_and_https_external_urls() {
    assert!(is_allowed_external_url("https://example.com/docs"));
    assert!(is_allowed_external_url("http://localhost:3000/path"));
    assert!(!is_allowed_external_url("javascript:alert(1)"));
    assert!(!is_allowed_external_url("file:///etc/passwd"));
    assert!(!is_allowed_external_url("not a url"));
}

#[test]
fn opening_a_non_web_link_is_refused() {
    assert_eq!(
        check_external_url("file:///etc/passwd"),
        Err("Only HTTP and HTTPS links can be opened".to_string())
    );
    assert_eq!(check_external_url("HTTPS://EXAMPLE.COM"), Ok(()));
}

#[test]
fn selects_the_newest_eligible_release() {
    let releases = vec![
        GitHubRelease {
            tag_name: Some("v0.4.0-beta.1".into()),
            html_url: Some("https://example.com/beta".into()),
            draft: false,
            prerelease: true,
        },
        GitHubRelease {
            tag_name: Some("v0.3.0".into()),
            html_url: Some("https://example.com/stable".into()),
            draft: false,
            prerelease: false,
        },
        GitHubRelease {
            tag_name: Some("v9.0.0".into()),
            html_url: Some("https://example.com/draft".into()),
            draft: true,
            prerelease: false,
        },
    ];

    let update = find_update("0.2.2", &releases, true).unwrap();
    assert_eq!(update.version, "0.4.0-beta.1");
    assert_eq!(update.url, "https://example.com/beta");
}

#[test]
fn ignores_prereleases_when_disabled_and_older_releases() {
    let releases = vec![
        GitHubRelease {
            tag_name: Some("v0.4.0-beta.1".into()),
            html_url: Some("https://example.com/beta".into()),
            draft: false,
            prerelease: true,
        },
        GitHubRelease {
            tag_name: Some("v0.3.0".into()),
            html_url: Some("https://example.com/stable".into()),
            draft: false,
            prerelease: false,
        },
    ];

    assert!(find_update("0.3.0", &releases, false).is_none());
    assert!(find_update("invalid", &releases, true).is_none());
}

#[test]
fn a_prerelease_comes_before_its_release_and_numbers_before_words() {
    let beta = parse_version("1.0.0-beta.2").unwrap();
    let beta_word = parse_version("1.0.0-beta.x").unwrap();
    let release = parse_version("v1.0.0").unwrap();
    assert_eq!(compare_versions(&beta, &release), Ordering::Less);
    assert_eq!(compare_versions(&release, &beta), Ordering::Greater);
    assert_eq!(compare_versions(&beta, &beta_word), Ordering::Less);
    assert_eq!(compare_versions(&release, &release), Ordering::Equal);
}

#[test]
fn malformed_versions_are_not_read() {
    assert!(parse_version("1.2").is_none());
    assert!(parse_version("1.2.3-").is_none());
    assert!(parse_version("1.2.x").is_none());
    assert!(parse_version(" v1.2.3 ").is_some());
}

#[test]
fn only_the_two_web_schemes_are_allowed() {
    assert!(is_allowed_scheme("http"));
    assert!(is_allowed_scheme("https"));
    assert!(!is_allowed_scheme("HTTP"));
    assert!(!is_allowed_scheme("ftp"));
    assert!(!is_allowed_scheme(""));
}

#[test]
fn prerelease_chain_ranks_in_order() {
    let chain = [
        "1.0.0-alpha",
        "1.0.0-alpha.1",
        "1.0.0-alpha.beta",
        "1.0.0-beta",
        "1.0.0-beta.2",
        "1.0.0-beta.11",
        "1.0.0-rc.1",
        "1.0.0",
        "1.0.1",
    ];
    let parsed: Vec<_> = chain.iter().map(|v| parse_version(v).unwrap()).collect();
    for i in 0..parsed.len() {
        for j in 0..parsed.len() {
            assert_eq!(compare_versions(&parsed[i], &parsed[j]), i.cmp(&j), "{} against {}", chain[i], chain[j]);
        }
    }
}
