use fabmanager::changelog::{parse_changelog, extract_todos, ChangelogEntry};
use fabmanager::matcher::VersionMatcher;
use fabmanager::plan::{compose_plan, select_upgrades};
use fabmanager::release::parse_release;
use fabmanager::version::parse_semver;

#[test]
fn fabmanager_verify_options() {
    let options = fabmanager::options::extract_options(
        "bash -- -c \"rails fablab:stripe:set_gateway\" -c \"rails fablab:maintenance:rebuild_stylesheet\" -s \"rename-adminsys\"",
    );
    println!("{:?}", options);
    assert_eq!(3, options.len());
}

#[test]
fn main_verify_options() {
    let options = fabmanager::options::extract_options(
        "bash -- -c \"rails fablab:stripe:set_gateway\" -c \"rails fablab:maintenance:rebuild_stylesheet\" -s \"rename-adminsys\"",
    );
    println!("{:?}", options);
    assert_eq!(3, options.len());
}

#[test]
fn verify_single_todo() {
    let entry = ChangelogEntry {
        date: String::new(),
        version: String::new(),
        changes: vec!["- [TODO DEPLOY] `rails db:seed`".to_string()],
    };
    let todos = extract_todos(&entry);
    assert_eq!(1, todos.len());
}

#[test]
fn verify_double_todos() {
    // A tagged change line yields exactly one deployment action, however
    // many quoted commands it carries: actions are per line, tag and
    // leading list marker stripped.
    let entry = ChangelogEntry {
        date: String::new(),
        version: String::new(),
        changes: vec![
            "- [TODO DEPLOY] `rails fablab:es:build_stats` THEN `rails fablab:maintenance:regenerate_statistics[2014,1]`"
                .to_string(),
        ],
    };
    let todos = extract_todos(&entry);
    assert_eq!(1, todos.len());
    assert_eq!(
        todos[0],
        "`rails fablab:es:build_stats` THEN `rails fablab:maintenance:regenerate_statistics[2014,1]`"
    );
}

#[test]
fn fabmanager_it_works_2() {
    let release = parse_release("## [UPDATE]() \n```bash\nupdate\n``` ").unwrap();
    assert_eq!(release.update, "update");
}

#[test]
fn fabmanager_it_works_2a() {
    let release = parse_release("## [UPDATE]() \n```bash\nupdate\n``` ").unwrap();
    assert_eq!(release.update, "update");
}

#[test]
fn main_it_works_2() {
    let release = parse_release("## [UPDATE]() \n```bash\nupdate\n``` ").unwrap();
    assert_eq!(release.update, "update");
}

#[test]
fn main_it_works_2a() {
    let release = parse_release("## [UPDATE]() \n```bash\nupdate\n``` ").unwrap();
    assert_eq!(release.update, "update");
}

#[test]
fn fabmanager_it_works_3() {
    let body = r#"
 #### [UPDATE](https://github.com/sleede/fab-manager/blob/master/doc/production_readme.md#update-fabmanager) 🪄
```bash
\curl -sSL upgrade.fab.mn | bash -s -- -p "rails fablab:chain:all" -c "rails fablab:stripe:set_gateway" -c "rails fablab:maintenance:rebuild_stylesheet" -s "rename-adminsys"
```
       "#;
    let release = parse_release(body).unwrap();
    assert_eq!(
        release.update,
        "\\curl -sSL upgrade.fab.mn | bash -s -- -p \"rails fablab:chain:all\" -c \"rails fablab:stripe:set_gateway\" -c \"rails fablab:maintenance:rebuild_stylesheet\" -s \"rename-adminsys\""
    );
}

#[test]
fn main_it_works_3() {
    let body = r#"
 #### [UPDATE](https://github.com/sleede/fab-manager/blob/master/doc/production_readme.md#update-fabmanager) 🪄
```bash
\curl -sSL upgrade.fab.mn | bash -s -- -p "rails fablab:chain:all" -c "rails fablab:stripe:set_gateway" -c "rails fablab:maintenance:rebuild_stylesheet" -s "rename-adminsys"
```
       "#;
    let release = parse_release(body).unwrap();
    assert_eq!(
        release.update,
        "\\curl -sSL upgrade.fab.mn | bash -s -- -p \"rails fablab:chain:all\" -c \"rails fablab:stripe:set_gateway\" -c \"rails fablab:maintenance:rebuild_stylesheet\" -s \"rename-adminsys\""
    );
}

fn release_json() -> &'static str {
    r#"
        {
        "url": "https://api.github.com/repos/sleede/fab-manager/releases/44420026",
        "assets_url": "https://api.github.com/repos/sleede/fab-manager/releases/44420026/assets",
        "upload_url": "https://uploads.github.com/repos/sleede/fab-manager/releases/44420026/assets{?name,label}",
        "html_url": "https://github.com/sleede/fab-manager/releases/tag/v5.0.0",
        "id": 44420026,
        "author": {
            "login": "sylvainbx",
            "id": 5102799,
            "node_id": "MDQ6VXNlcjUxMDI3OTk=",
            "avatar_url": "https://avatars.githubusercontent.com/u/5102799?v=4",
            "gravatar_id": "",
            "url": "https://api.github.com/users/sylvainbx",
            "html_url": "https://github.com/sylvainbx",
            "followers_url": "https://api.github.com/users/sylvainbx/followers",
            "following_url": "https://api.github.com/users/sylvainbx/following{/other_user}",
            "gists_url": "https://api.github.com/users/sylvainbx/gists{/gist_id}",
            "starred_url": "https://api.github.com/users/sylvainbx/starred{/owner}{/repo}",
            "subscriptions_url": "https://api.github.com/users/sylvainbx/subscriptions",
            "organizations_url": "https://api.github.com/users/sylvainbx/orgs",
            "repos_url": "https://api.github.com/users/sylvainbx/repos",
            "events_url": "https://api.github.com/users/sylvainbx/events{/privacy}",
            "received_events_url": "https://api.github.com/users/sylvainbx/received_events",
            "type": "User",
            "user_view_type": "public",
            "site_admin": false
        },
        "node_id": "MDc6UmVsZWFzZTQ0NDIwMDI2",
        "tag_name": "v5.0.0",
        "target_commitish": "master",
        "name": "Release 5.0.0",
        "draft": false,
        "immutable": false,
        "prerelease": false,
        "created_at": "2021-06-10T14:21:33Z",
        "updated_at": "2021-06-16T08:52:05Z",
        "published_at": "2021-06-10T14:41:52Z",
        "assets": [

        ],
        "tarball_url": "https://api.github.com/repos/sleede/fab-manager/tarball/v5.0.0",
        "zipball_url": "https://api.github.com/repos/sleede/fab-manager/zipball/v5.0.0",
        "body": "- [Ability to use PayZen to process online payments as an alternative to Stripe](https://feedback.fab-manager.com/posts/4/use-an-alternative-payment-gateway)\r\n- Ability to organize plans in categories\r\n- [Filter plans by group and by duration](https://feedback.fab-manager.com/posts/88/filter-plans-by-duration)\r\n- For payment schedules, ability to update the related payment card before the deadline\r\n- Improved the upgrade script\r\n- Refactored data architecture to make it generic\r\n- Various bug fixes, minor improvements and security fixes\r\n\r\nPlease read [the change log](CHANGELOG.md) for more details.\r\n\r\n#### BREAKING CHANGE\r\n`GET open_api/v1/invoices` won't return the exact same data structure anymore:\r\n- `stp_invoice_id` or `stp_payment_intent_id` has been replaced by `payment_gateway_object.id`.\r\n- `invoiced_id`, `invoiced_type` and `invoiced.created_at` has been replaced by `main_object:{type, id, created_at}`.\r\n\r\n#### [UPDATE](https://github.com/sleede/fab-manager/blob/master/doc/production_readme.md#update-fabmanager) 🪄\r\n```bash\r\n\\curl -sSL upgrade.fab.mn | bash -s -- -p \"rails fablab:chain:all\" -c \"rails fablab:stripe:set_gateway\" -c \"rails fablab:maintenance:rebuild_stylesheet\" -s \"rename-adminsys\"\r\n```"
        }"#
}

#[test]
fn fabmanager_it_works() {
    let parsed: serde_json::Value = serde_json::from_str(release_json()).unwrap();
    let body = parsed["body"].as_str().unwrap();
    println!("{:}", body);
    let release = parse_release(body).unwrap();
    assert_eq!(
        release.update,
        "\\curl -sSL upgrade.fab.mn | bash -s -- -p \"rails fablab:chain:all\" -c \"rails fablab:stripe:set_gateway\" -c \"rails fablab:maintenance:rebuild_stylesheet\" -s \"rename-adminsys\""
    );
}

#[test]
fn main_it_works() {
    let parsed: serde_json::Value = serde_json::from_str(release_json()).unwrap();
    let body = parsed["body"].as_str().unwrap();
    println!("{:}", body);
    let release = parse_release(body).unwrap();
    assert_eq!(
        release.update,
        "\\curl -sSL upgrade.fab.mn | bash -s -- -p \"rails fablab:chain:all\" -c \"rails fablab:stripe:set_gateway\" -c \"rails fablab:maintenance:rebuild_stylesheet\" -s \"rename-adminsys\""
    );
}

#[test]
fn end_to_end_plan() {
    let changelog = "## v5.1.0 2021-06-10\n- minor fix\n\n## v5.0.0 2021-05-01\n- [TODO DEPLOY] run migration\n- other change\n";
    let entries = parse_changelog(changelog);
    let matcher = VersionMatcher::bounded("4.9.0", "5.1.0").unwrap();
    let sel = select_upgrades(&entries, &matcher);
    assert_eq!(sel.matched.len(), 2);
    assert_eq!(sel.matched[0].version, "v5.0.0");
    assert_eq!(sel.matched[1].version, "v5.1.0");
    assert_eq!(sel.todos, vec!["run migration".to_string()]);
    // only the release with a deployment action is fetched
    assert_eq!(sel.fetch_tags, vec!["v5.0.0".to_string()]);
    assert!(sel.malformed.is_empty());

    let body = "#### [UPDATE]() \n```bash\n\\curl -sSL upgrade.fab.mn | bash -s -- -c \"a\" -s \"b\"\n```";
    let bodies = vec![Some(body.to_string())];
    let to = parse_semver("5.1.0").unwrap();
    let plan = compose_plan(sel, &bodies, &to);
    assert_eq!(plan.todos, vec!["run migration".to_string()]);
    assert_eq!(
        plan.merged_options,
        vec!["-c \"a\"".to_string(), "-s \"b\"".to_string()]
    );
    assert_eq!(
        plan.release_commands,
        vec!["\\curl -sSL upgrade.fab.mn | bash -s -- -t 5.0.0 -c \"a\" -s \"b\"".to_string()]
    );
    assert_eq!(plan.release_tags, vec!["v5.0.0".to_string()]);
    assert_eq!(
        plan.final_command,
        "\\curl -sSL upgrade.fab.mn | bash -s -- -t 5.1.0 -c \"a\" -s \"b\""
    );
    assert!(plan.no_update.is_empty());
    assert!(plan.fetch_failed.is_empty());
}

#[test]
fn plan_reports_missing_update_block() {
    let changelog = "## v5.0.0 2021-05-01\n- [TODO DEPLOY] run migration\n";
    let entries = parse_changelog(changelog);
    let matcher = VersionMatcher::bounded("4.9.0", "5.0.0").unwrap();
    let sel = select_upgrades(&entries, &matcher);
    assert_eq!(sel.fetch_tags, vec!["v5.0.0".to_string()]);
    let bodies = vec![Some("a body with no update block".to_string())];
    let to = parse_semver("5.0.0").unwrap();
    let plan = compose_plan(sel, &bodies, &to);
    assert_eq!(plan.no_update, vec!["v5.0.0".to_string()]);
    assert!(plan.merged_options.is_empty());
    assert_eq!(
        plan.final_command,
        "\\curl -sSL upgrade.fab.mn | bash -s -- -t 5.0.0 "
    );
}

#[test]
fn plan_reports_failed_fetch() {
    let changelog = "## v5.0.0 2021-05-01\n- [TODO DEPLOY] run migration\n";
    let entries = parse_changelog(changelog);
    let matcher = VersionMatcher::bounded("4.9.0", "5.0.0").unwrap();
    let sel = select_upgrades(&entries, &matcher);
    let bodies = vec![None];
    let to = parse_semver("5.0.0").unwrap();
    let plan = compose_plan(sel, &bodies, &to);
    assert_eq!(plan.fetch_failed, vec!["v5.0.0".to_string()]);
    assert!(plan.release_commands.is_empty());
}

#[test]
fn plan_skips_malformed_entry() {
    let changelog = "## vnot.a.version 2020-01-01\n- [TODO DEPLOY] something\n\n## v5.0.0 2021-05-01\n- fix\n";
    let entries = parse_changelog(changelog);
    let matcher = VersionMatcher::bounded("4.9.0", "5.0.0").unwrap();
    let sel = select_upgrades(&entries, &matcher);
    assert_eq!(sel.malformed, vec!["vnot.a.version".to_string()]);
    assert_eq!(sel.matched.len(), 1);
    assert_eq!(sel.matched[0].version, "v5.0.0");
}
