use cardbe::share::{
    content_security_policy, generated_dir, inline_script_hashes, is_private_lan_address, is_public_viewer_asset, lan_route,
    parse_expiration, refusal, share_url, valid_share_id, LanIp, LanRoute, LanShare, LanShareRegistry,
};

fn share(title: &str) -> LanShare<String> {
    LanShare {
        snapshot: title.to_string(),
        updated_at: "2024-01-01T00:00:00+00:00".to_string(),
        expires_at: None,
    }
}

const NOW: (i64, u32) = (1_704_067_200, 0);

#[test]
fn accepts_only_unguessable_url_safe_ids() {
    assert!(valid_share_id("j3V_BXrcsGwtsXv6XAD1jA"));
    assert!(!valid_share_id("short"));
    assert!(!valid_share_id("../../not-a-share-id!!"));
}

#[test]
fn accepts_only_private_or_link_local_lan_addresses() {
    assert!(is_private_lan_address(&LanIp::V4([192, 168, 1, 20])));
    assert!(is_private_lan_address(&LanIp::V4([10, 0, 0, 20])));
    assert!(is_private_lan_address(&LanIp::V4([172, 16, 0, 20])));
    assert!(is_private_lan_address(&LanIp::V4([169, 254, 10, 20])));
    assert!(is_private_lan_address(&LanIp::V6([0xfd00, 0, 0, 0, 0, 0, 0, 0x20])));
    assert!(is_private_lan_address(&LanIp::V6([0xfe80, 0, 0, 0, 0, 0, 0, 0x20])));
    assert!(!is_private_lan_address(&LanIp::V4([8, 8, 8, 8])));
    assert!(!is_private_lan_address(&LanIp::V6([0x2001, 0x4860, 0x4860, 0, 0, 0, 0, 0x8888])));
}

#[test]
fn viewer_asset_allowlist_rejects_paths_outside_the_frontend() {
    assert!(is_public_viewer_asset("_app/immutable/entry/app.js"));
    assert!(!is_public_viewer_asset("_app/../index.html"));
    assert!(!is_public_viewer_asset("secret.txt"));
}

#[test]
fn disabled_links_cannot_be_resurrected_by_delayed_updates() {
    let mut state: LanShareRegistry<String> = LanShareRegistry::new();
    let id = "j3V_BXrcsGwtsXv6XAD1jA".to_string();
    let new_id = "k4W_ACyrtHxtuYw7YBE2kB".to_string();
    state.replace_share(id.clone(), share("Private content"), false).unwrap();
    state.revoke(id.clone()).unwrap();
    assert!(state.replace_share(id.clone(), share("Private content"), false).is_err());
    assert!(!state.active_share(&id, NOW));
    state.replace_share(new_id.clone(), share("Private content"), false).unwrap();
    // An older request must not disable or replace the newer share.
    state.revoke(id.clone()).unwrap();
    assert!(state.replace_share(id, share("Private content"), false).is_err());
    assert!(state.active_share(&new_id, NOW));
}

#[test]
fn explicitly_reusing_a_link_reactivates_its_retired_id() {
    let mut state: LanShareRegistry<String> = LanShareRegistry::new();
    let id = "j3V_BXrcsGwtsXv6XAD1jA".to_string();
    state.replace_share(id.clone(), share("Restored content"), false).unwrap();
    state.revoke(id.clone()).unwrap();

    state.replace_share(id.clone(), share("Restored content"), true).unwrap();

    assert!(state.active_share(&id, NOW));
    assert!(!state.retired.contains(&id));
}

#[test]
fn explicitly_reusing_an_active_link_replaces_its_snapshot() {
    let mut state: LanShareRegistry<String> = LanShareRegistry::new();
    let id = "j3V_BXrcsGwtsXv6XAD1jA".to_string();
    state.replace_share(id.clone(), share("Original"), false).unwrap();

    state.replace_share(id.clone(), share("Replacement"), true).unwrap();

    assert_eq!(state.shares.len(), 1);
    assert_eq!(state.get(&id).unwrap().snapshot, "Replacement");
}

#[test]
fn explicitly_reusing_an_unknown_link_creates_that_requested_id() {
    let mut state: LanShareRegistry<String> = LanShareRegistry::new();
    let id = "j3V_BXrcsGwtsXv6XAD1jA".to_string();

    state.replace_share(id.clone(), share("Recovered elsewhere"), true).unwrap();

    assert!(state.active_share(&id, NOW));
    assert!(!state.retired.contains(&id));
}

#[test]
fn revoke_before_publication_retires_only_that_id() {
    let mut state: LanShareRegistry<String> = LanShareRegistry::new();
    state.revoke("pending".into()).unwrap();
    assert!(state.replace_share("pending".into(), share(""), false).is_err());
    state.replace_share("old".into(), share(""), false).unwrap();
    state.replace_share("new".into(), share(""), false).unwrap();
    assert!(state.replace_share("old".into(), share(""), false).is_ok());
}

#[test]
fn expired_snapshots_are_not_served_and_are_removed() {
    let mut state: LanShareRegistry<String> = LanShareRegistry::new();
    let id = "j3V_BXrcsGwtsXv6XAD1jA";
    let mut expired = share("Expired secret");
    expired.expires_at = Some((NOW.0 - 1, NOW.1));
    state.replace_share(id.into(), expired, false).unwrap();
    assert!(!state.active_share(id, NOW));
    assert!(state.get(id).is_none());
    assert!(state.shares.is_empty());
}

#[test]
fn publishing_another_share_keeps_existing_ids_active() {
    let mut state: LanShareRegistry<String> = LanShareRegistry::new();
    let old_id = "j3V_BXrcsGwtsXv6XAD1jA".to_string();
    let new_id = "k4W_ACyrtHxtuYw7YBE2kB".to_string();

    state.replace_share(old_id.clone(), share("Old"), false).unwrap();
    state.replace_share(new_id.clone(), share("New"), false).unwrap();

    assert!(state.get(&old_id).is_some());
    assert!(state.get(&new_id).is_some());
    assert_eq!(state.shares.len(), 2);
}

#[test]
fn lan_server_exposes_only_read_only_share_routes_and_viewer_assets() {
    let id = "j3V_BXrcsGwtsXv6XAD1jA";
    let api = format!("/api/shares/{id}");
    let refused = refusal(&lan_route(false, &api)).unwrap();
    assert_eq!(refused.status, 405);
    assert_eq!(refused.body, "Method not allowed");

    for path in ["/", "/index.html", "/api/board", "/api/tasks", "/secret.txt", "/_app/../index.html"] {
        let answer = refusal(&lan_route(true, path)).unwrap();
        assert_eq!(answer.status, 404, "{path}");
        assert_eq!(answer.body, "Not found");
    }
    assert!(matches!(lan_route(true, &api), LanRoute::ShareApi(found) if found == id));
    assert!(matches!(lan_route(true, &format!("/share/{id}")), LanRoute::SharePage(found) if found == id));
    assert!(matches!(lan_route(true, "/share/short"), LanRoute::ShareNotFound));
    assert!(matches!(lan_route(true, "/_app/app.css"), LanRoute::Asset(found) if found == "_app/app.css"));
}

#[test]
fn the_viewer_page_only_runs_its_own_hashed_scripts() {
    let page = b"<main id=\"svelte\">Cardbe<script>window.__cardbe = true;</script></main>";
    let policy = content_security_policy("text/html; charset=utf-8", page);
    assert!(policy.starts_with("default-src 'self'"), "{policy}");
    assert!(policy.contains("script-src 'self' 'sha256-"));
    assert!(!policy.contains("script-src 'unsafe-inline'"));
    assert!(policy.contains("form-action 'none'"));
    assert!(!policy.contains("connect-src 'self' ipc:"));
    let css = content_security_policy("text/css; charset=utf-8", b".cardbe { display: block; }");
    assert!(!css.contains("sha256-"));
}

#[test]
fn expiration_dates_must_lie_ahead() {
    assert_eq!(parse_expiration(None, NOW), Ok(None));
    assert_eq!(
        parse_expiration(Some("not a date".to_string()), NOW),
        Err("Invalid expiration date".to_string())
    );
    assert_eq!(
        parse_expiration(Some("2023-12-31T23:59:59Z".to_string()), NOW),
        Err("Expiration must be in the future".to_string())
    );
    let ahead = parse_expiration(Some("2024-01-02T00:00:00+01:00".to_string()), NOW).unwrap().unwrap();
    assert_eq!(ahead.0, 1_704_150_000);
    assert_eq!(ahead.1, 0);
    assert_eq!(ahead.2, "2024-01-01T23:00:00+00:00");
}

#[test]
fn share_addresses_and_development_directories() {
    assert_eq!(share_url("192.168.1.20", 8765, "abc"), "http://192.168.1.20:8765/share/abc");
    assert_eq!(generated_dir(1420), ".svelte-kit");
    assert_eq!(generated_dir(1500), ".svelte-kit-dev-1500");
}

#[test]
fn inline_scripts_are_hashed_and_other_bodies_are_not() {
    let page = b"<p>x</p><script>window.__cardbe = true;</script><script src=\"/_app/a.js\"></script>";
    assert_eq!(inline_script_hashes(page), vec!["'sha256-FfCL/k2FWqSmztdGkY5iBZ9rDSf65X+t6tvrvq1dpas='".to_string()]);
    assert!(inline_script_hashes(&[0xff, 0xfe, b'<']).is_empty());
    assert!(inline_script_hashes(b"<script>unclosed").is_empty());
}
