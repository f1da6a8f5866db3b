use rgit::admin::{
    access_loaded_text, access_request_body, access_settings_path, decision_flags, access_row_html, action_error, decide_request_body,
    create_permission_body, group_creation, html_escape, load_access, panel_input_error,
    names_list_html, parse_string_array, requests_list_html, resource_path, save_access_outcome,
    text_body, AccessSettings, AccountAccess, BodyField, NameList, PanelAction, PanelInput, Resource,
};

fn ok(status: u16, text: &str) -> Option<(u16, String)> {
    Some((status, text.to_string()))
}

#[test]
fn html_escape_replaces_markup_characters() {
    assert_eq!(html_escape("<a href=\"x\">&</a>"), "&lt;a href=&quot;x&quot;&gt;&amp;&lt;/a&gt;");
    assert_eq!(html_escape("it's fine"), "it's fine");
}

#[test]
fn string_arrays() {
    assert_eq!(parse_string_array(r#"["a.git", 3, "b.git"]"#), vec!["a.git".to_string(), "b.git".to_string()]);
    assert!(parse_string_array(r#"{"a":1}"#).is_empty());
    assert!(parse_string_array("not json").is_empty());
}

fn expected_request_item(id: &str, email: &str, repo: Option<&str>, message: Option<&str>, is_create: bool) -> String {
    format!(
        "<li data-id=\"{id}\">\
         <div><strong>{email}</strong> \
         {repo_label}{create_label}</div>\
         {message_html}\
         <label><input type=\"checkbox\" class=\"req-view\" checked> 閲覧</label> \
         <label><input type=\"checkbox\" class=\"req-dl\" checked> ダウンロード</label> \
         <label><input type=\"checkbox\" class=\"req-push\"> push</label> \
         <button type=\"button\" class=\"btn-approve\" data-id=\"{id}\">承認</button> \
         <button type=\"button\" class=\"btn-deny\" data-id=\"{id}\">却下</button>\
         </li>",
        id = html_escape(id),
        email = html_escape(email),
        repo_label = repo.map(|r| format!(" → {}", html_escape(r))).unwrap_or_else(|| " (アカウント登録のみ)".to_string()),
        create_label = if is_create { " [新規リポジトリ作成申請]" } else { "" },
        message_html = message
            .filter(|m| !m.is_empty())
            .map(|m| format!("<div><em>{}</em></div>", html_escape(m)))
            .unwrap_or_default(),
    )
}

#[test]
fn requests_list_renders_each_request() {
    let text = r#"[{"id":"r1","email":"a@b.c","repo":"x<y","message":"please","is_create_repo_request":true},{"id":"r2","email":"d@e.f","message":""}]"#;
    let expected = expected_request_item("r1", "a@b.c", Some("x<y"), Some("please"), true)
        + &expected_request_item("r2", "d@e.f", None, Some(""), false);
    assert_eq!(requests_list_html(&ok(200, text)), expected);
}

#[test]
fn requests_list_notes() {
    assert_eq!(requests_list_html(&ok(200, "[]")), "<li>保留中の申請はありません</li>");
    assert_eq!(requests_list_html(&ok(200, "{}")), "<li>申請はありません</li>");
    assert_eq!(requests_list_html(&ok(200, "{")), "<li>応答の解析に失敗しました</li>");
    assert_eq!(requests_list_html(&ok(401, "")), "<li>管理者ログインが必要です</li>");
    assert_eq!(requests_list_html(&ok(403, "")), "<li>管理者ログインが必要です</li>");
    assert_eq!(requests_list_html(&ok(500, "")), "<li>読み込みに失敗しました</li>");
    assert_eq!(requests_list_html(&None), "<li>読み込みに失敗しました</li>");
}

#[test]
fn name_lists() {
    let text = r#"["a@b", "<x>"]"#;
    let mut accounts = String::new();
    for email in ["a@b", "<x>"] {
        accounts.push_str(&format!(
            "<li data-email=\"{email}\">{email} \
             <button type=\"button\" class=\"btn-allow-create\" data-email=\"{email}\">作成許可ON</button> \
             <button type=\"button\" class=\"btn-deny-create\" data-email=\"{email}\">作成許可OFF</button> \
             <button type=\"button\" class=\"btn-remove-account\" data-email=\"{email}\">削除</button></li>",
            email = html_escape(email)
        ));
    }
    assert_eq!(names_list_html(NameList::Accounts, &ok(200, text)), accounts);
    let mut groups = String::new();
    let mut options = String::new();
    for name in ["a@b", "<x>"] {
        groups.push_str(&format!(
            "<li data-name=\"{name}\">{name} <button type=\"button\" class=\"btn-remove-group\" data-name=\"{name}\">削除</button></li>",
            name = html_escape(name)
        ));
        options.push_str(&format!("<option value=\"{name}\">{name}</option>", name = html_escape(name)));
    }
    assert_eq!(names_list_html(NameList::Groups, &ok(200, text)), groups);
    assert_eq!(names_list_html(NameList::RepoOptions, &ok(200, text)), options);

    assert_eq!(names_list_html(NameList::Accounts, &ok(200, "[]")), "<li>登録アカウントはありません</li>");
    assert_eq!(names_list_html(NameList::Groups, &ok(200, "[]")), "<li>グループはありません</li>");
    assert_eq!(names_list_html(NameList::RepoOptions, &ok(200, "[]")), "");
    assert_eq!(names_list_html(NameList::Groups, &ok(403, "")), "<li>管理者ログインが必要です</li>");
    assert_eq!(names_list_html(NameList::Accounts, &None), "<li>読み込みに失敗しました</li>");
    assert_eq!(names_list_html(NameList::RepoOptions, &ok(500, "")), "");
}

#[test]
fn access_rows() {
    assert_eq!(
        access_row_html("a&b", true, false, true),
        "<strong>a&amp;b</strong> \
         <label><input type=\"checkbox\" class=\"acc-view\" checked> 閲覧</label> \
         <label><input type=\"checkbox\" class=\"acc-dl\" > ダウンロード</label> \
         <label><input type=\"checkbox\" class=\"acc-push\" checked> push</label> \
         <button type=\"button\" class=\"btn-remove-access-row\">削除</button>"
    );
}

#[test]
fn action_errors() {
    assert_eq!(action_error(PanelAction::DecideRequest, &ok(200, "")), None);
    assert_eq!(action_error(PanelAction::DecideRequest, &ok(403, "no")).unwrap(), "拒否されました: no");
    assert_eq!(
        action_error(PanelAction::DecideRequest, &ok(500, "boom")).unwrap(),
        "申請の処理に失敗しました(status 500): boom"
    );
    assert_eq!(action_error(PanelAction::DecideRequest, &None).unwrap(), "申請の処理に失敗しました(通信エラー)");
    assert_eq!(action_error(PanelAction::AddAccount, &ok(201, "")), None);
    assert_eq!(
        action_error(PanelAction::AddAccount, &ok(200, "x")).unwrap(),
        "アカウント追加に失敗しました(status 200): x"
    );
    assert_eq!(
        action_error(PanelAction::AddAccount, &ok(403, "locked")).unwrap(),
        "アカウント登録が制限されています: locked"
    );
    assert_eq!(action_error(PanelAction::RemoveAccount, &ok(404, "gone")).unwrap(), "削除に失敗しました(status 404): gone");
    assert_eq!(action_error(PanelAction::RemoveGroup, &None).unwrap(), "削除に失敗しました(通信エラー)");
    assert_eq!(
        action_error(PanelAction::SetCreatePermission, &ok(7, "")).unwrap(),
        "作成許可の変更に失敗しました(status 7): "
    );
    assert_eq!(action_error(PanelAction::SetCreatePermission, &ok(200, "")), None);
}

#[test]
fn group_creation_outcomes() {
    assert_eq!(
        group_creation("dev", &ok(201, r#"{"token":"t0k"}"#)),
        Ok(Some("グループ「dev」を作成しました。招待トークン(この画面でしか表示されません): t0k".to_string()))
    );
    assert_eq!(group_creation("dev", &ok(201, "{}")), Ok(None));
    assert_eq!(group_creation("dev", &ok(201, "oops")), Ok(None));
    assert_eq!(group_creation("dev", &ok(409, "")), Err("同名のグループが既に存在します".to_string()));
    assert_eq!(group_creation("dev", &ok(500, "e")), Err("グループ作成に失敗しました(status 500): e".to_string()));
    assert_eq!(group_creation("dev", &None), Err("グループ作成に失敗しました(通信エラー)".to_string()));
}

#[test]
fn loading_access_settings() {
    let text = r#"{"mode":"group","group":"devs","allow_view":true,"allow_download":1,"accounts":{"a@b":{"allow_view":true,"allow_push":true},"c@d":{}}}"#;
    let s = load_access(&ok(200, text)).unwrap();
    assert_eq!(s.mode, "group");
    assert_eq!(s.group, "devs");
    assert!(s.allow_view && !s.allow_download && !s.allow_push);
    assert_eq!(s.accounts.len(), 2);
    assert_eq!(s.accounts[0].email, "a@b");
    assert!(s.accounts[0].view && !s.accounts[0].download && s.accounts[0].push);
    assert_eq!(s.accounts[1].email, "c@d");
    assert!(!s.accounts[1].view && !s.accounts[1].download && !s.accounts[1].push);

    let d = load_access(&ok(200, "[]")).unwrap();
    assert_eq!(d.mode, "private");
    assert_eq!(d.group, "");
    assert!(d.accounts.is_empty());

    assert_eq!(load_access(&ok(200, "{")).err().unwrap(), "応答の解析に失敗しました");
    assert_eq!(load_access(&ok(401, "")).err().unwrap(), "管理者ログインが必要です");
    assert_eq!(load_access(&ok(404, "")).err().unwrap(), "リポジトリが見つかりません");
    assert_eq!(load_access(&ok(502, "bad")).err().unwrap(), "読み込みに失敗しました(status 502): bad");
    assert_eq!(load_access(&None).err().unwrap(), "読み込みに失敗しました(通信エラー)");
    assert_eq!(access_loaded_text("r.git"), "r.git の現在の設定を読み込みました");
}

#[test]
fn saving_access_settings() {
    assert_eq!(save_access_outcome("r.git", &ok(200, "")), Ok("r.git の設定を保存しました".to_string()));
    assert_eq!(save_access_outcome("r", &ok(400, "bad mode")), Err("入力内容が不正です: bad mode".to_string()));
    assert_eq!(save_access_outcome("r", &ok(403, "")), Err("管理者ログインが必要です".to_string()));
    assert_eq!(save_access_outcome("r", &ok(500, "x")), Err("保存に失敗しました(status 500): x".to_string()));
    assert_eq!(save_access_outcome("r", &None), Err("保存に失敗しました(通信エラー)".to_string()));
}

#[test]
fn request_bodies() {
    let approve = true;
    let (allow_view, allow_download, allow_push) = (true, false, true);
    assert_eq!(
        decide_request_body(approve, allow_view, allow_download, allow_push),
        format!(r#"{{"approve":{approve},"allow_view":{allow_view},"allow_download":{allow_download},"allow_push":{allow_push}}}"#)
    );
    assert_eq!(text_body(BodyField::Email, "a\"b@c"), r#"{"email":"a\"b@c"}"#);
    assert_eq!(text_body(BodyField::Name, "dev"), r#"{"name":"dev"}"#);
    assert_eq!(create_permission_body(false), r#"{"allow":false}"#);

    let settings = AccessSettings {
        mode: "group".to_string(),
        group: "devs".to_string(),
        allow_view: true,
        allow_download: false,
        allow_push: false,
        accounts: vec![
            AccountAccess { email: "a@b".to_string(), view: true, download: true, push: false },
            AccountAccess { email: "c@d".to_string(), view: false, download: false, push: true },
        ],
    };
    assert_eq!(
        access_request_body(&settings),
        r#"{"mode":"group","group":"devs","allow_view":true,"allow_download":false,"allow_push":false,"accounts":{"a@b":{"allow_view":true,"allow_download":true,"allow_push":false},"c@d":{"allow_view":false,"allow_download":false,"allow_push":true}}}"#
    );
    let private = AccessSettings { mode: "private".to_string(), group: "devs".to_string(), allow_view: false, allow_download: false, allow_push: false, accounts: vec![] };
    assert_eq!(
        access_request_body(&private),
        r#"{"mode":"private","group":null,"allow_view":false,"allow_download":false,"allow_push":false,"accounts":{}}"#
    );
    let no_group = AccessSettings { mode: "group".to_string(), group: String::new(), allow_view: false, allow_download: false, allow_push: false, accounts: vec![] };
    assert!(access_request_body(&no_group).contains(r#""group":null"#));
}

#[test]
fn resource_paths() {
    assert_eq!(resource_path(Resource::RequestDecision, "r1"), "/api/accounts/requests/r1/decide");
    assert_eq!(resource_path(Resource::Account, "a@b"), "/api/accounts/a@b");
    assert_eq!(resource_path(Resource::CreatePermission, "a@b"), "/api/accounts/a@b/create-permission");
    assert_eq!(resource_path(Resource::Group, "g\"1"), "/api/groups/g\\\"1");
    assert_eq!(resource_path(Resource::RepoAccess, "x.git"), "/api/repos/x.git/access");
}

#[test]
fn panel_input_checks() {
    assert_eq!(panel_input_error(PanelInput::AccountEmail, "a@b"), None);
    assert_eq!(panel_input_error(PanelInput::AccountEmail, "ab").unwrap(), "メールアドレスを入力してください");
    assert_eq!(panel_input_error(PanelInput::AccountEmail, "").unwrap(), "メールアドレスを入力してください");
    assert_eq!(panel_input_error(PanelInput::AccessRowEmail, "x@y"), None);
    assert_eq!(
        panel_input_error(PanelInput::AccessRowEmail, "xy").unwrap(),
        "追加するアカウントのメールアドレスを入力してください"
    );
    assert_eq!(panel_input_error(PanelInput::GroupName, "dev"), None);
    assert_eq!(panel_input_error(PanelInput::GroupName, "").unwrap(), "グループ名を入力してください");
    assert_eq!(panel_input_error(PanelInput::Repository, "r.git"), None);
    assert_eq!(panel_input_error(PanelInput::Repository, "").unwrap(), "リポジトリを選択してください");
}

#[test]
fn access_settings_need_a_repository() {
    assert_eq!(access_settings_path(""), Err("リポジトリを選択してください".to_string()));
    assert_eq!(access_settings_path("team/app"), Ok("/api/repos/team/app/access".to_string()));
    assert_eq!(access_settings_path("a\"b"), Ok("/api/repos/a\\\"b/access".to_string()));
}

#[test]
fn denied_requests_send_no_permissions() {
    assert_eq!(decision_flags(false, true, true, true), (false, false, false));
    assert_eq!(decision_flags(true, true, false, true), (true, false, true));
}
