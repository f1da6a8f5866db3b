//! The decisions of the administration panel: the HTML fragments it shows,
//! the request bodies it sends, and the message it shows for each response.
//! Fetching, and putting the results into the page, are left to the caller.

use vstd::prelude::*;
use crate::text::chars_of;
use crate::rjson::{
    lemma_view_fields_index, lemma_view_fields_push, lemma_view_items_index, lookup,
    parse_detailed, spec_parse, view_fields, view_items, JsonValue, Value,
};
use crate::render::{
    escape_text, json_escape, law_written_value_reads_back, render_value, to_json, well_formed,
    well_formed_fields,
};

verus! {

/// How one character is written into HTML text or an attribute value.
pub open spec fn html_escape_char(c: char) -> Seq<char> {
    if c == '&' {
        seq!['&', 'a', 'm', 'p', ';']
    } else if c == '<' {
        seq!['&', 'l', 't', ';']
    } else if c == '>' {
        seq!['&', 'g', 't', ';']
    } else if c == '"' {
        seq!['&', 'q', 'u', 'o', 't', ';']
    } else {
        seq![c]
    }
}

pub open spec fn spec_html_escape(t: Seq<char>) -> Seq<char>
    decreases t.len(),
{
    if t.len() == 0 {
        Seq::empty()
    } else {
        spec_html_escape(t.drop_last()) + html_escape_char(t.last())
    }
}

/// Escapes `&`, `<`, `>` and `"` so that `s` can stand in HTML text or in a
/// double-quoted attribute.
pub fn html_escape(s: &str) -> (r: String)
    ensures
        r@ == spec_html_escape(s@),
{
    let cs = chars_of(s);
    let mut out = String::new();
    let mut i: usize = 0;
    while i < cs.len()
        invariant
            0 <= i <= cs.len(),
            cs@ == s@,
            out@ == spec_html_escape(cs@.subrange(0, i as int)),
        decreases cs.len() - i,
    {
        let c = cs[i];
        let ghost before = out@;
        if c == '&' {
            out.push('&');
            out.push('a');
            out.push('m');
            out.push('p');
            out.push(';');
        } else if c == '<' {
            out.push('&');
            out.push('l');
            out.push('t');
            out.push(';');
        } else if c == '>' {
            out.push('&');
            out.push('g');
            out.push('t');
            out.push(';');
        } else if c == '"' {
            out.push('&');
            out.push('q');
            out.push('u');
            out.push('o');
            out.push('t');
            out.push(';');
        } else {
            out.push(c);
        }
        proof {
            assert(out@ =~= before + html_escape_char(c));
            let next = cs@.subrange(0, i + 1);
            assert(next.drop_last() =~= cs@.subrange(0, i as int));
            assert(next.last() == c);
        }
        i = i + 1;
    }
    assert(cs@.subrange(0, cs.len() as int) =~= cs@);
    out
}

/// The characters that would open markup or close an attribute.
pub open spec fn is_markup_char(c: char) -> bool {
    c == '<' || c == '>' || c == '"'
}

/// Escaped text holds no `<`, `>` or `"`, so it cannot open a tag or close the
/// attribute it stands in; and a text without `&`, `<`, `>` or `"` is left as it is.
pub proof fn law_html_escape_is_inert(t: Seq<char>)
    ensures
        forall|i: int|
            0 <= i < spec_html_escape(t).len() ==> !is_markup_char(
                #[trigger] spec_html_escape(t)[i],
            ),
        (forall|i: int| 0 <= i < t.len() ==> !is_markup_char(#[trigger] t[i]) && t[i] != '&')
            ==> spec_html_escape(t) == t,
    decreases t.len(),
{
    if t.len() > 0 {
        let p = t.drop_last();
        law_html_escape_is_inert(p);
        let a = spec_html_escape(p);
        let b = html_escape_char(t.last());
        assert forall|i: int| 0 <= i < (a + b).len() implies !is_markup_char(#[trigger] (a + b)[i]) by {
            if i < a.len() {
                assert((a + b)[i] == a[i]);
            } else {
                assert((a + b)[i] == b[i - a.len()]);
            }
        }
        if forall|i: int| 0 <= i < t.len() ==> !is_markup_char(#[trigger] t[i]) && t[i] != '&' {
            assert forall|i: int| 0 <= i < p.len() implies !is_markup_char(#[trigger] p[i])
                && p[i] != '&' by {
                assert(p[i] == t[i]);
            }
            assert(!is_markup_char(t[t.len() - 1]) && t[t.len() - 1] != '&');
            assert(p.push(t.last()) =~= t);
        }
    } else {
        assert(t =~= Seq::<char>::empty());
    }
}

// ---------------------------------------------------------------------------
// Reading fields of a response

/// The value of field `key` of an object.
pub open spec fn field_of(v: JsonValue, key: Seq<char>) -> Option<JsonValue> {
    match v {
        JsonValue::Object(fs) => lookup(fs, key),
        _ => None,
    }
}

/// The text of field `key` of an object, when that field is a string.
pub open spec fn str_field(v: JsonValue, key: Seq<char>) -> Option<Seq<char>> {
    match field_of(v, key) {
        Some(JsonValue::Str(t)) => Some(t),
        _ => None,
    }
}

/// The truth value of field `key` of an object, when that field is a boolean.
pub open spec fn bool_field(v: JsonValue, key: Seq<char>) -> Option<bool> {
    match field_of(v, key) {
        Some(JsonValue::Bool(b)) => Some(b),
        _ => None,
    }
}

fn str_field_of<'a>(v: &'a Value, key: &str) -> (r: Option<&'a str>)
    ensures
        match str_field(v@, key@) {
            Some(t) => r matches Some(x) && x@ == t,
            None => r is None,
        },
{
    match v.get(key) {
        Some(f) => f.as_str(),
        None => None,
    }
}

fn bool_field_of(v: &Value, key: &str) -> (r: Option<bool>)
    ensures
        r == bool_field(v@, key@),
{
    match v.get(key) {
        Some(f) => f.as_bool(),
        None => None,
    }
}

/// The strings among the elements, in order.
pub open spec fn string_elements(vs: Seq<JsonValue>) -> Seq<Seq<char>>
    decreases vs.len(),
{
    if vs.len() == 0 {
        Seq::empty()
    } else {
        let p = string_elements(vs.drop_last());
        match vs.last() {
            JsonValue::Str(t) => p.push(t),
            _ => p,
        }
    }
}

/// The strings of a JSON array text; nothing for any other text.
pub open spec fn spec_string_array(text: Seq<char>) -> Seq<Seq<char>> {
    match spec_parse(text) {
        Ok(JsonValue::Array(vs)) => string_elements(vs),
        _ => Seq::empty(),
    }
}

pub open spec fn texts(v: Seq<String>) -> Seq<Seq<char>> {
    v.map_values(|s: String| s@)
}

/// The strings of a JSON array text, such as the list of repository names;
/// empty when the text is not an array.
pub fn parse_string_array(text: &str) -> (r: Vec<String>)
    ensures
        texts(r@) == spec_string_array(text@),
{
    let mut out: Vec<String> = Vec::new();
    match parse_detailed(text) {
        Ok(v) => match v.as_array() {
            Some(items) => {
                let ghost vs = view_items(items@);
                proof { lemma_view_items_index(items@); }
                let mut i: usize = 0;
                while i < items.len()
                    invariant
                        0 <= i <= items.len(),
                        vs == view_items(items@),
                        vs.len() == items.len(),
                        forall|j: int| 0 <= j < items.len() ==> #[trigger] vs[j] == items@[j]@,
                        texts(out@) == string_elements(vs.subrange(0, i as int)),
                    decreases items.len() - i,
                {
                    let ghost before = out@;
                    if let Some(s) = items[i].as_str() {
                        out.push(s.to_owned());
                        assert(texts(out@) =~= texts(before).push(s@));
                    }
                    assert(vs.subrange(0, i + 1).drop_last() =~= vs.subrange(0, i as int));
                    assert(vs.subrange(0, i + 1).last() == items@[i as int]@);
                    i = i + 1;
                }
                assert(vs.subrange(0, items.len() as int) =~= vs);
                out
            },
            None => {
                assert(texts(out@) =~= Seq::<Seq<char>>::empty());
                out
            },
        },
        Err(_) => {
            assert(texts(out@) =~= Seq::<Seq<char>>::empty());
            out
        },
    }
}

// ---------------------------------------------------------------------------
// Numbers in messages

pub open spec fn digit_char(d: int) -> char {
    seq!['0', '1', '2', '3', '4', '5', '6', '7', '8', '9'][d]
}

/// The decimal digits of `n`.
pub open spec fn decimal_text(n: nat) -> Seq<char>
    decreases n,
{
    if n < 10 {
        seq![digit_char(n as int)]
    } else {
        decimal_text(n / 10) + seq![digit_char((n % 10) as int)]
    }
}

fn digit_exec(d: u16) -> (c: char)
    requires
        d < 10,
    ensures
        c == digit_char(d as int),
{
    match d {
        0 => '0',
        1 => '1',
        2 => '2',
        3 => '3',
        4 => '4',
        5 => '5',
        6 => '6',
        7 => '7',
        8 => '8',
        _ => '9',
    }
}

fn push_decimal(out: &mut String, n: u16)
    ensures
        final(out)@ == old(out)@ + decimal_text(n as nat),
    decreases n,
{
    if n >= 10 {
        push_decimal(out, n / 10);
    }
    out.push(digit_exec(n % 10));
}

// ---------------------------------------------------------------------------
// Lists

pub open spec fn login_required_li() -> Seq<char> {
    "<li>管理者ログインが必要です</li>"@
}

pub open spec fn load_failed_li() -> Seq<char> {
    "<li>読み込みに失敗しました</li>"@
}

/// One pending request, as a list item with its decision controls.
pub open spec fn request_item_html(item: JsonValue) -> Seq<char> {
    let id = spec_html_escape(
        match str_field(item, "id"@) {
            Some(t) => t,
            None => Seq::empty(),
        },
    );
    let email = spec_html_escape(
        match str_field(item, "email"@) {
            Some(t) => t,
            None => Seq::empty(),
        },
    );
    let repo_label = match str_field(item, "repo"@) {
        Some(r) => " → "@ + spec_html_escape(r),
        None => " (アカウント登録のみ)"@,
    };
    let create_label = if bool_field(item, "is_create_repo_request"@) == Some(true) {
        " [新規リポジトリ作成申請]"@
    } else {
        Seq::empty()
    };
    let message_html = match str_field(item, "message"@) {
        Some(m) => if m.len() > 0 {
            "<div><em>"@ + spec_html_escape(m) + "</em></div>"@
        } else {
            Seq::empty()
        },
        None => Seq::empty(),
    };
    "<li data-id=\""@ + id + "\"><div><strong>"@ + email + "</strong> "@ + repo_label
        + create_label + "</div>"@ + message_html
        + "<label><input type=\"checkbox\" class=\"req-view\" checked> 閲覧</label> <label><input type=\"checkbox\" class=\"req-dl\" checked> ダウンロード</label> <label><input type=\"checkbox\" class=\"req-push\"> push</label> <button type=\"button\" class=\"btn-approve\" data-id=\""@
        + id + "\">承認</button> <button type=\"button\" class=\"btn-deny\" data-id=\""@ + id
        + "\">却下</button></li>"@
}

pub open spec fn request_items_html(items: Seq<JsonValue>) -> Seq<char>
    decreases items.len(),
{
    if items.len() == 0 {
        Seq::empty()
    } else {
        request_items_html(items.drop_last()) + request_item_html(items.last())
    }
}

/// The contents of the pending-request list for a response to the request
/// listing (`None`: no response arrived).
pub open spec fn spec_requests_list_html(outcome: Option<(u16, String)>) -> Seq<char> {
    match outcome {
        Some((status, text)) => if status == 200 {
            match spec_parse(text@) {
                Err(_) => "<li>応答の解析に失敗しました</li>"@,
                Ok(v) => match v {
                    JsonValue::Array(items) => if items.len() == 0 {
                        "<li>保留中の申請はありません</li>"@
                    } else {
                        request_items_html(items)
                    },
                    _ => "<li>申請はありません</li>"@,
                },
            }
        } else if status == 401 || status == 403 {
            login_required_li()
        } else {
            load_failed_li()
        },
        None => load_failed_li(),
    }
}

fn request_item_html_exec(item: &Value) -> (r: String)
    ensures
        r@ == request_item_html(item@),
{
    let id = html_escape(
        match str_field_of(item, "id") {
            Some(t) => t,
            None => "",
        },
    );
    let email = html_escape(
        match str_field_of(item, "email") {
            Some(t) => t,
            None => "",
        },
    );
    let mut repo_label = String::new();
    match str_field_of(item, "repo") {
        Some(r) => {
            repo_label.append(" → ");
            repo_label.append(html_escape(r).as_str());
        },
        None => {
            repo_label.append(" (アカウント登録のみ)");
        },
    }
    let mut create_label = String::new();
    match bool_field_of(item, "is_create_repo_request") {
        Some(true) => {
            create_label.append(" [新規リポジトリ作成申請]");
        },
        _ => {},
    }
    let mut message_html = String::new();
    match str_field_of(item, "message") {
        Some(m) => {
            if !m.is_empty() {
                message_html.append("<div><em>");
                message_html.append(html_escape(m).as_str());
                message_html.append("</em></div>");
            }
        },
        None => {},
    }
    proof {
        if let Some(m) = str_field(item@, "message"@) {
            if m.len() == 0 {
                assert(message_html@ =~= Seq::<char>::empty());
            }
        }
        if let Some(t) = str_field(item@, "id"@) {
        } else {
            assert(""@ =~= Seq::<char>::empty()) by { reveal_strlit(""); }
        }
        if let Some(t) = str_field(item@, "email"@) {
        } else {
            assert(""@ =~= Seq::<char>::empty()) by { reveal_strlit(""); }
        }
    }
    let ghost sid = spec_html_escape(
        match str_field(item@, "id"@) {
            Some(t) => t,
            None => Seq::empty(),
        },
    );
    let ghost semail = spec_html_escape(
        match str_field(item@, "email"@) {
            Some(t) => t,
            None => Seq::empty(),
        },
    );
    let ghost srepo = match str_field(item@, "repo"@) {
        Some(r) => " → "@ + spec_html_escape(r),
        None => " (アカウント登録のみ)"@,
    };
    let ghost screate = if bool_field(item@, "is_create_repo_request"@) == Some(true) {
        " [新規リポジトリ作成申請]"@
    } else {
        Seq::empty()
    };
    let ghost smsg = match str_field(item@, "message"@) {
        Some(mm) => if mm.len() > 0 {
            "<div><em>"@ + spec_html_escape(mm) + "</em></div>"@
        } else {
            Seq::empty()
        },
        None => Seq::empty(),
    };
    assert(id@ == sid);
    assert(email@ == semail);
    assert(repo_label@ =~= srepo);
    assert(create_label@ =~= screate);
    assert(message_html@ =~= smsg);
    let mut m = String::new();
    m.append("<li data-id=\"");
    m.append(id.as_str());
    m.append("\"><div><strong>");
    m.append(email.as_str());
    m.append("</strong> ");
    m.append(repo_label.as_str());
    m.append(create_label.as_str());
    m.append("</div>");
    m.append(message_html.as_str());
    m.append(
        "<label><input type=\"checkbox\" class=\"req-view\" checked> 閲覧</label> <label><input type=\"checkbox\" class=\"req-dl\" checked> ダウンロード</label> <label><input type=\"checkbox\" class=\"req-push\"> push</label> <button type=\"button\" class=\"btn-approve\" data-id=\"",
    );
    m.append(id.as_str());
    m.append("\">承認</button> <button type=\"button\" class=\"btn-deny\" data-id=\"");
    m.append(id.as_str());
    m.append("\">却下</button></li>");
    m
}

/// The contents of the pending-request list for a response to the request
/// listing (`None`: no response arrived).
pub fn requests_list_html(outcome: &Option<(u16, String)>) -> (r: String)
    ensures
        r@ == spec_requests_list_html(*outcome),
{
    let mut m = String::new();
    match outcome {
        Some((status, text)) => {
            if *status == 200 {
                match parse_detailed(text.as_str()) {
                    Err(_) => {
                        m.append("<li>応答の解析に失敗しました</li>");
                    },
                    Ok(v) => match v.as_array() {
                        Some(items) => {
                            if items.len() == 0 {
                                m.append("<li>保留中の申請はありません</li>");
                            } else {
                                let ghost vs = view_items(items@);
                                proof { lemma_view_items_index(items@); }
                                let mut i: usize = 0;
                                while i < items.len()
                                    invariant
                                        0 <= i <= items.len(),
                                        vs == view_items(items@),
                                        vs.len() == items.len(),
                                        forall|j: int|
                                            0 <= j < items.len() ==> #[trigger] vs[j]
                                                == items@[j]@,
                                        m@ == request_items_html(vs.subrange(0, i as int)),
                                    decreases items.len() - i,
                                {
                                    let item_html = request_item_html_exec(&items[i]);
                                    m.append(item_html.as_str());
                                    assert(vs.subrange(0, i + 1).drop_last() =~= vs.subrange(
                                        0,
                                        i as int,
                                    ));
                                    i = i + 1;
                                }
                                assert(vs.subrange(0, items.len() as int) =~= vs);
                            }
                        },
                        None => {
                            m.append("<li>申請はありません</li>");
                        },
                    },
                }
            } else if *status == 401 || *status == 403 {
                m.append("<li>管理者ログインが必要です</li>");
            } else {
                m.append("<li>読み込みに失敗しました</li>");
            }
        },
        None => {
            m.append("<li>読み込みに失敗しました</li>");
        },
    }
    m
}

/// The lists of names that the panel shows.
#[derive(Clone, Copy, PartialEq, Eq, Structural, Debug)]
pub enum NameList {
    /// Registered accounts, with their permission and removal controls.
    Accounts,
    /// Groups, with their removal control.
    Groups,
    /// Repositories, as the options of the access-settings selector.
    RepoOptions,
}

/// One name (already escaped) as an element of the list.
pub open spec fn name_item_html(kind: NameList, e: Seq<char>) -> Seq<char> {
    match kind {
        NameList::Accounts => "<li data-email=\""@ + e + "\">"@ + e
            + " <button type=\"button\" class=\"btn-allow-create\" data-email=\""@ + e
            + "\">作成許可ON</button> <button type=\"button\" class=\"btn-deny-create\" data-email=\""@
            + e + "\">作成許可OFF</button> <button type=\"button\" class=\"btn-remove-account\" data-email=\""@
            + e + "\">削除</button></li>"@,
        NameList::Groups => "<li data-name=\""@ + e + "\">"@ + e
            + " <button type=\"button\" class=\"btn-remove-group\" data-name=\""@ + e
            + "\">削除</button></li>"@,
        NameList::RepoOptions => "<option value=\""@ + e + "\">"@ + e + "</option>"@,
    }
}

pub open spec fn names_html(kind: NameList, names: Seq<Seq<char>>) -> Seq<char>
    decreases names.len(),
{
    if names.len() == 0 {
        Seq::empty()
    } else {
        names_html(kind, names.drop_last()) + name_item_html(kind, spec_html_escape(names.last()))
    }
}

/// What the list shows for a response to the request that lists its names
/// (`None`: no response arrived).
pub open spec fn spec_names_list_html(kind: NameList, outcome: Option<(u16, String)>) -> Seq<
    char,
> {
    match outcome {
        Some((status, text)) => if status == 200 {
            let names = spec_string_array(text@);
            if names.len() == 0 {
                match kind {
                    NameList::Accounts => "<li>登録アカウントはありません</li>"@,
                    NameList::Groups => "<li>グループはありません</li>"@,
                    NameList::RepoOptions => Seq::empty(),
                }
            } else {
                names_html(kind, names)
            }
        } else if kind == NameList::RepoOptions {
            Seq::empty()
        } else if status == 401 || status == 403 {
            login_required_li()
        } else {
            load_failed_li()
        },
        None => if kind == NameList::RepoOptions {
            Seq::empty()
        } else {
            load_failed_li()
        },
    }
}

fn name_item_html_exec(kind: NameList, name: &str) -> (r: String)
    ensures
        r@ == name_item_html(kind, spec_html_escape(name@)),
{
    let e = html_escape(name);
    let mut m = String::new();
    match kind {
        NameList::Accounts => {
            m.append("<li data-email=\"");
            m.append(e.as_str());
            m.append("\">");
            m.append(e.as_str());
            m.append(" <button type=\"button\" class=\"btn-allow-create\" data-email=\"");
            m.append(e.as_str());
            m.append("\">作成許可ON</button> <button type=\"button\" class=\"btn-deny-create\" data-email=\"");
            m.append(e.as_str());
            m.append("\">作成許可OFF</button> <button type=\"button\" class=\"btn-remove-account\" data-email=\"");
            m.append(e.as_str());
            m.append("\">削除</button></li>");
        },
        NameList::Groups => {
            m.append("<li data-name=\"");
            m.append(e.as_str());
            m.append("\">");
            m.append(e.as_str());
            m.append(" <button type=\"button\" class=\"btn-remove-group\" data-name=\"");
            m.append(e.as_str());
            m.append("\">削除</button></li>");
        },
        NameList::RepoOptions => {
            m.append("<option value=\"");
            m.append(e.as_str());
            m.append("\">");
            m.append(e.as_str());
            m.append("</option>");
        },
    }
    m
}

/// What the list of `kind` shows for a response to the request that lists
/// its names (`None`: no response arrived): an element per name, or a note
/// when there are none or the request failed.
pub fn names_list_html(kind: NameList, outcome: &Option<(u16, String)>) -> (r: String)
    ensures
        r@ == spec_names_list_html(kind, *outcome),
{
    let mut m = String::new();
    match outcome {
        Some((status, text)) => {
            if *status == 200 {
                let names = parse_string_array(text.as_str());
                if names.len() == 0 {
                    match kind {
                        NameList::Accounts => {
                            m.append("<li>登録アカウントはありません</li>");
                        },
                        NameList::Groups => {
                            m.append("<li>グループはありません</li>");
                        },
                        NameList::RepoOptions => {},
                    }
                } else {
                    let ghost ns = texts(names@);
                    let mut i: usize = 0;
                    while i < names.len()
                        invariant
                            0 <= i <= names.len(),
                            ns == texts(names@),
                            ns == spec_string_array(text@),
                            m@ == names_html(kind, ns.subrange(0, i as int)),
                        decreases names.len() - i,
                    {
                        let item = name_item_html_exec(kind, names[i].as_str());
                        m.append(item.as_str());
                        assert(ns.subrange(0, i + 1).drop_last() =~= ns.subrange(0, i as int));
                        assert(ns[i as int] == names@[i as int]@);
                        i = i + 1;
                    }
                    assert(ns.subrange(0, names.len() as int) =~= ns);
                }
            } else if kind == NameList::RepoOptions {
            } else if *status == 401 || *status == 403 {
                m.append("<li>管理者ログインが必要です</li>");
            } else {
                m.append("<li>読み込みに失敗しました</li>");
            }
        },
        None => {
            if kind != NameList::RepoOptions {
                m.append("<li>読み込みに失敗しました</li>");
            }
        },
    }
    m
}

/// The contents of one row of the per-account access table.
pub open spec fn spec_access_row_html(email: Seq<char>, view: bool, download: bool, push: bool) -> Seq<
    char,
> {
    "<strong>"@ + spec_html_escape(email) + "</strong> <label><input type=\"checkbox\" class=\"acc-view\" "@
        + checked_text(view) + "> 閲覧</label> <label><input type=\"checkbox\" class=\"acc-dl\" "@
        + checked_text(download)
        + "> ダウンロード</label> <label><input type=\"checkbox\" class=\"acc-push\" "@
        + checked_text(push)
        + "> push</label> <button type=\"button\" class=\"btn-remove-access-row\">削除</button>"@
}

pub open spec fn checked_text(b: bool) -> Seq<char> {
    if b {
        "checked"@
    } else {
        Seq::empty()
    }
}

fn append_checked(m: &mut String, b: bool)
    ensures
        final(m)@ == old(m)@ + checked_text(b),
{
    if b {
        m.append("checked");
    } else {
        assert(old(m)@ + checked_text(b) =~= old(m)@);
    }
}

/// The contents of one row of the per-account access table: the escaped
/// address and the three permission boxes, ticked as given.
pub fn access_row_html(email: &str, view: bool, download: bool, push: bool) -> (r: String)
    ensures
        r@ == spec_access_row_html(email@, view, download, push),
{
    let mut m = String::new();
    m.append("<strong>");
    m.append(html_escape(email).as_str());
    m.append("</strong> <label><input type=\"checkbox\" class=\"acc-view\" ");
    append_checked(&mut m, view);
    m.append("> 閲覧</label> <label><input type=\"checkbox\" class=\"acc-dl\" ");
    append_checked(&mut m, download);
    m.append("> ダウンロード</label> <label><input type=\"checkbox\" class=\"acc-push\" ");
    append_checked(&mut m, push);
    m.append("> push</label> <button type=\"button\" class=\"btn-remove-access-row\">削除</button>");
    m
}

// ---------------------------------------------------------------------------
// Messages for the responses to the panel's requests

/// A failure reported with the response's status and body.
pub open spec fn failure_with_status(prefix: Seq<char>, status: u16, text: Seq<char>) -> Seq<char> {
    prefix + "(status "@ + decimal_text(status as nat) + "): "@ + text
}

/// A failure for want of any response.
pub open spec fn network_failure(prefix: Seq<char>) -> Seq<char> {
    prefix + "(通信エラー)"@
}

fn failure_with_status_exec(prefix: &str, status: u16, text: &str) -> (r: String)
    ensures
        r@ == failure_with_status(prefix@, status, text@),
{
    let mut m = String::new();
    m.append(prefix);
    m.append("(status ");
    push_decimal(&mut m, status);
    m.append("): ");
    m.append(text);
    proof {
        assert(m@ =~= failure_with_status(prefix@, status, text@));
    }
    m
}

fn network_failure_exec(prefix: &str) -> (r: String)
    ensures
        r@ == network_failure(prefix@),
{
    let mut m = String::new();
    m.append(prefix);
    m.append("(通信エラー)");
    proof {
        assert(m@ =~= network_failure(prefix@));
    }
    m
}

/// The panel's requests whose only outcome is an error message or none.
#[derive(Clone, Copy, PartialEq, Eq, Structural, Debug)]
pub enum PanelAction {
    /// Approving or denying an access request.
    DecideRequest,
    /// Registering an account.
    AddAccount,
    /// Removing an account.
    RemoveAccount,
    /// Granting or withdrawing an account's permission to create repositories.
    SetCreatePermission,
    /// Removing a group.
    RemoveGroup,
}

/// The status that reports success for `a`.
pub open spec fn success_status(a: PanelAction) -> u16 {
    if a == PanelAction::AddAccount {
        201
    } else {
        200
    }
}

pub open spec fn failure_prefix(a: PanelAction) -> Seq<char> {
    match a {
        PanelAction::DecideRequest => "申請の処理に失敗しました"@,
        PanelAction::AddAccount => "アカウント追加に失敗しました"@,
        PanelAction::RemoveAccount => "削除に失敗しました"@,
        PanelAction::SetCreatePermission => "作成許可の変更に失敗しました"@,
        PanelAction::RemoveGroup => "削除に失敗しました"@,
    }
}

/// The error to show after `a` got `outcome` (`None` for the outcome: no
/// response arrived); `None` when `a` succeeded.
pub open spec fn spec_action_error(a: PanelAction, outcome: Option<(u16, String)>) -> Option<
    Seq<char>,
> {
    match outcome {
        Some((status, text)) => if status == success_status(a) {
            None
        } else if status == 403 && a == PanelAction::DecideRequest {
            Some("拒否されました: "@ + text@)
        } else if status == 403 && a == PanelAction::AddAccount {
            Some("アカウント登録が制限されています: "@ + text@)
        } else {
            Some(failure_with_status(failure_prefix(a), status, text@))
        },
        None => Some(network_failure(failure_prefix(a))),
    }
}

fn failure_prefix_exec(a: PanelAction) -> (r: &'static str)
    ensures
        r@ == failure_prefix(a),
{
    match a {
        PanelAction::DecideRequest => "申請の処理に失敗しました",
        PanelAction::AddAccount => "アカウント追加に失敗しました",
        PanelAction::RemoveAccount => "削除に失敗しました",
        PanelAction::SetCreatePermission => "作成許可の変更に失敗しました",
        PanelAction::RemoveGroup => "削除に失敗しました",
    }
}

/// The error to show after `a` got `outcome`; `None` when it succeeded.
pub fn action_error(a: PanelAction, outcome: &Option<(u16, String)>) -> (r: Option<String>)
    ensures
        match spec_action_error(a, *outcome) {
            Some(m) => r matches Some(x) && x@ == m,
            None => r is None,
        },
{
    match outcome {
        Some((status, text)) => {
            let success: u16 = if a == PanelAction::AddAccount {
                201
            } else {
                200
            };
            if *status == success {
                None
            } else if *status == 403 && a == PanelAction::DecideRequest {
                let mut m = String::new();
                m.append("拒否されました: ");
                m.append(text.as_str());
                assert(m@ =~= "拒否されました: "@ + text@);
                Some(m)
            } else if *status == 403 && a == PanelAction::AddAccount {
                let mut m = String::new();
                m.append("アカウント登録が制限されています: ");
                m.append(text.as_str());
                assert(m@ =~= "アカウント登録が制限されています: "@ + text@);
                Some(m)
            } else {
                Some(failure_with_status_exec(failure_prefix_exec(a), *status, text.as_str()))
            }
        },
        None => Some(network_failure_exec(failure_prefix_exec(a))),
    }
}

/// After a group-creation request: `Ok` with the message that shows the new
/// group's invitation token (when the response carries one), or `Err` with the
/// error to show.
pub open spec fn spec_group_creation(name: Seq<char>, outcome: Option<(u16, String)>) -> Result<
    Option<Seq<char>>,
    Seq<char>,
> {
    match outcome {
        Some((status, text)) => if status == 201 {
            Ok(
                match spec_parse(text@) {
                    Ok(v) => match str_field(v, "token"@) {
                        Some(token) => Some(
                            "グループ「"@ + name
                                + "」を作成しました。招待トークン(この画面でしか表示されません): "@
                                + token,
                        ),
                        None => None,
                    },
                    Err(_) => None,
                },
            )
        } else if status == 409 {
            Err("同名のグループが既に存在します"@)
        } else {
            Err(failure_with_status("グループ作成に失敗しました"@, status, text@))
        },
        None => Err(network_failure("グループ作成に失敗しました"@)),
    }
}

/// After a request to create the group `name`: `Ok` with the message that
/// shows its invitation token (if the response carries one), or `Err` with the
/// error to show.
pub fn group_creation(name: &str, outcome: &Option<(u16, String)>) -> (r: Result<
    Option<String>,
    String,
>)
    ensures
        match spec_group_creation(name@, *outcome) {
            Ok(Some(m)) => r matches Ok(Some(x)) && x@ == m,
            Ok(None) => r matches Ok(None),
            Err(m) => r matches Err(x) && x@ == m,
        },
{
    match outcome {
        Some((status, text)) => {
            if *status == 201 {
                match parse_detailed(text.as_str()) {
                    Ok(v) => match str_field_of(&v, "token") {
                        Some(token) => {
                            let mut m = String::new();
                            m.append("グループ「");
                            m.append(name);
                            m.append("」を作成しました。招待トークン(この画面でしか表示されません): ");
                            m.append(token);
                            Ok(Some(m))
                        },
                        None => Ok(None),
                    },
                    Err(_) => Ok(None),
                }
            } else if *status == 409 {
                let mut m = String::new();
                m.append("同名のグループが既に存在します");
                Err(m)
            } else {
                Err(failure_with_status_exec("グループ作成に失敗しました", *status, text.as_str()))
            }
        },
        None => Err(network_failure_exec("グループ作成に失敗しました")),
    }
}

// ---------------------------------------------------------------------------
// Per-repository access settings

/// One account's permissions on a repository.
pub struct AccountAccess {
    pub email: String,
    pub view: bool,
    pub download: bool,
    pub push: bool,
}

impl View for AccountAccess {
    type V = (Seq<char>, bool, bool, bool);

    open spec fn view(&self) -> (Seq<char>, bool, bool, bool) {
        (self.email@, self.view, self.download, self.push)
    }
}

/// The access settings of a repository.
pub struct AccessSettings {
    pub mode: String,
    pub group: String,
    pub allow_view: bool,
    pub allow_download: bool,
    pub allow_push: bool,
    pub accounts: Vec<AccountAccess>,
}

/// The mathematical model of [`AccessSettings`].
pub struct AccessModel {
    pub mode: Seq<char>,
    pub group: Seq<char>,
    pub allow_view: bool,
    pub allow_download: bool,
    pub allow_push: bool,
    pub accounts: Seq<(Seq<char>, bool, bool, bool)>,
}

pub open spec fn account_views(accounts: Seq<AccountAccess>) -> Seq<(Seq<char>, bool, bool, bool)> {
    accounts.map_values(|a: AccountAccess| a@)
}

impl View for AccessSettings {
    type V = AccessModel;

    open spec fn view(&self) -> AccessModel {
        AccessModel {
            mode: self.mode@,
            group: self.group@,
            allow_view: self.allow_view,
            allow_download: self.allow_download,
            allow_push: self.allow_push,
            accounts: account_views(self.accounts@),
        }
    }
}

pub open spec fn flag(v: JsonValue, key: Seq<char>) -> bool {
    bool_field(v, key) == Some(true)
}

/// An account entry `(email, permissions)` of the response, with each
/// permission that is not `true` read as refused.
pub open spec fn account_entry(e: (Seq<char>, JsonValue)) -> (Seq<char>, bool, bool, bool) {
    (e.0, flag(e.1, "allow_view"@), flag(e.1, "allow_download"@), flag(e.1, "allow_push"@))
}

/// The settings that a response object describes: mode `private`, no group and
/// nothing allowed where a field is missing or of another kind.
pub open spec fn access_of(v: JsonValue) -> AccessModel {
    AccessModel {
        mode: match str_field(v, "mode"@) {
            Some(t) => t,
            None => "private"@,
        },
        group: match str_field(v, "group"@) {
            Some(t) => t,
            None => Seq::empty(),
        },
        allow_view: flag(v, "allow_view"@),
        allow_download: flag(v, "allow_download"@),
        allow_push: flag(v, "allow_push"@),
        accounts: match field_of(v, "accounts"@) {
            Some(JsonValue::Object(entries)) => entries.map_values(
                |e: (Seq<char>, JsonValue)| account_entry(e),
            ),
            _ => Seq::empty(),
        },
    }
}

/// After a request for a repository's access settings: the settings, or the
/// error to show.
pub open spec fn spec_load_access(outcome: Option<(u16, String)>) -> Result<AccessModel, Seq<char>> {
    match outcome {
        Some((status, text)) => if status == 200 {
            match spec_parse(text@) {
                Ok(v) => Ok(access_of(v)),
                Err(_) => Err("応答の解析に失敗しました"@),
            }
        } else if status == 401 || status == 403 {
            Err("管理者ログインが必要です"@)
        } else if status == 404 {
            Err("リポジトリが見つかりません"@)
        } else {
            Err(failure_with_status("読み込みに失敗しました"@, status, text@))
        },
        None => Err(network_failure("読み込みに失敗しました"@)),
    }
}

fn flag_of(v: &Value, key: &str) -> (r: bool)
    ensures
        r == flag(v@, key@),
{
    match bool_field_of(v, key) {
        Some(b) => b,
        None => false,
    }
}

fn access_of_exec(v: &Value) -> (r: AccessSettings)
    ensures
        r@ == access_of(v@),
{
    let mode = match str_field_of(v, "mode") {
        Some(t) => t.to_owned(),
        None => "private".to_owned(),
    };
    let group = match str_field_of(v, "group") {
        Some(t) => t.to_owned(),
        None => String::new(),
    };
    let mut accounts: Vec<AccountAccess> = Vec::new();
    match v.get("accounts") {
        Some(Value::Object(entries)) => {
            let ghost es = view_fields(entries@);
            proof { lemma_view_fields_index(entries@); }
            let mut i: usize = 0;
            while i < entries.len()
                invariant
                    0 <= i <= entries.len(),
                    es == view_fields(entries@),
                    es.len() == entries.len(),
                    forall|j: int|
                        0 <= j < entries.len() ==> #[trigger] es[j] == (
                            entries@[j].0@,
                            entries@[j].1@,
                        ),
                    account_views(accounts@) == es.subrange(0, i as int).map_values(
                        |e: (Seq<char>, JsonValue)| account_entry(e),
                    ),
                decreases entries.len() - i,
            {
                let perm = &entries[i].1;
                let a = AccountAccess {
                    email: entries[i].0.clone(),
                    view: flag_of(perm, "allow_view"),
                    download: flag_of(perm, "allow_download"),
                    push: flag_of(perm, "allow_push"),
                };
                let ghost before = accounts@;
                accounts.push(a);
                proof {
                    assert(es.subrange(0, i + 1) =~= es.subrange(0, i as int).push(es[i as int]));
                    assert(account_views(accounts@) =~= account_views(before).push(
                        account_entry(es[i as int]),
                    ));
                    assert(es.subrange(0, i + 1).map_values(
                        |e: (Seq<char>, JsonValue)| account_entry(e),
                    ) =~= es.subrange(0, i as int).map_values(
                        |e: (Seq<char>, JsonValue)| account_entry(e),
                    ).push(account_entry(es[i as int])));
                }
                i = i + 1;
            }
            assert(es.subrange(0, entries.len() as int) =~= es);
        },
        _ => {
            assert(account_views(accounts@) =~= Seq::<(Seq<char>, bool, bool, bool)>::empty());
        },
    }
    AccessSettings {
        mode,
        group,
        allow_view: flag_of(v, "allow_view"),
        allow_download: flag_of(v, "allow_download"),
        allow_push: flag_of(v, "allow_push"),
        accounts,
    }
}

/// After a request for a repository's access settings: the settings that
/// the response describes, or the error to show.
pub fn load_access(outcome: &Option<(u16, String)>) -> (r: Result<AccessSettings, String>)
    ensures
        match spec_load_access(*outcome) {
            Ok(a) => r matches Ok(x) && x@ == a,
            Err(m) => r matches Err(x) && x@ == m,
        },
{
    match outcome {
        Some((status, text)) => {
            if *status == 200 {
                match parse_detailed(text.as_str()) {
                    Ok(v) => Ok(access_of_exec(&v)),
                    Err(_) => Err("応答の解析に失敗しました".to_owned()),
                }
            } else if *status == 401 || *status == 403 {
                Err("管理者ログインが必要です".to_owned())
            } else if *status == 404 {
                Err("リポジトリが見つかりません".to_owned())
            } else {
                Err(failure_with_status_exec("読み込みに失敗しました", *status, text.as_str()))
            }
        },
        None => Err(network_failure_exec("読み込みに失敗しました")),
    }
}

/// The note shown once the settings of `repo` are loaded.
pub fn access_loaded_text(repo: &str) -> (r: String)
    ensures
        r@ == repo@ + " の現在の設定を読み込みました"@,
{
    let mut m = String::new();
    m.append(repo);
    m.append(" の現在の設定を読み込みました");
    assert(m@ =~= repo@ + " の現在の設定を読み込みました"@);
    m
}

/// After saving the settings of `repo`: `Ok` with the note to show, or `Err`
/// with the error.
pub open spec fn spec_save_access(repo: Seq<char>, outcome: Option<(u16, String)>) -> Result<
    Seq<char>,
    Seq<char>,
> {
    match outcome {
        Some((status, text)) => if status == 200 {
            Ok(repo + " の設定を保存しました"@)
        } else if status == 400 {
            Err("入力内容が不正です: "@ + text@)
        } else if status == 401 || status == 403 {
            Err("管理者ログインが必要です"@)
        } else {
            Err(failure_with_status("保存に失敗しました"@, status, text@))
        },
        None => Err(network_failure("保存に失敗しました"@)),
    }
}

/// After saving the settings of `repo`: `Ok` with the note to show, or `Err`
/// with the error.
pub fn save_access_outcome(repo: &str, outcome: &Option<(u16, String)>) -> (r: Result<
    String,
    String,
>)
    ensures
        match spec_save_access(repo@, *outcome) {
            Ok(m) => r matches Ok(x) && x@ == m,
            Err(m) => r matches Err(x) && x@ == m,
        },
{
    match outcome {
        Some((status, text)) => {
            if *status == 200 {
                let mut m = String::new();
                m.append(repo);
                m.append(" の設定を保存しました");
                assert(m@ =~= repo@ + " の設定を保存しました"@);
                Ok(m)
            } else if *status == 400 {
                let mut m = String::new();
                m.append("入力内容が不正です: ");
                m.append(text.as_str());
                assert(m@ =~= "入力内容が不正です: "@ + text@);
                Err(m)
            } else if *status == 401 || *status == 403 {
                Err("管理者ログインが必要です".to_owned())
            } else {
                Err(failure_with_status_exec("保存に失敗しました", *status, text.as_str()))
            }
        },
        None => Err(network_failure_exec("保存に失敗しました")),
    }
}

// ---------------------------------------------------------------------------
// Request bodies and paths

/// An account's three permissions, as the object the server reads.
pub open spec fn permissions_json(view: bool, download: bool, push: bool) -> JsonValue {
    JsonValue::Object(
        seq![
            ("allow_view"@, JsonValue::Bool(view)),
            ("allow_download"@, JsonValue::Bool(download)),
            ("allow_push"@, JsonValue::Bool(push)),
        ],
    )
}

/// The body of a decision on an access request.
pub open spec fn decide_request_json(approve: bool, view: bool, download: bool, push: bool) -> JsonValue {
    JsonValue::Object(
        seq![
            ("approve"@, JsonValue::Bool(approve)),
            ("allow_view"@, JsonValue::Bool(view)),
            ("allow_download"@, JsonValue::Bool(download)),
            ("allow_push"@, JsonValue::Bool(push)),
        ],
    )
}

/// An object of one field.
pub open spec fn single_field_json(key: Seq<char>, v: JsonValue) -> JsonValue {
    JsonValue::Object(seq![(key, v)])
}

/// The group named in saved settings: only in `group` mode, and only when given.
pub open spec fn group_setting_json(mode: Seq<char>, group: Seq<char>) -> JsonValue {
    if mode == "group"@ && group.len() > 0 {
        JsonValue::Str(group)
    } else {
        JsonValue::Null
    }
}

pub open spec fn account_member(a: (Seq<char>, bool, bool, bool)) -> (Seq<char>, JsonValue) {
    (a.0, permissions_json(a.1, a.2, a.3))
}

/// The body that saves a repository's access settings.
pub open spec fn access_request_json(settings: AccessModel) -> JsonValue {
    JsonValue::Object(
        seq![
            ("mode"@, JsonValue::Str(settings.mode)),
            ("group"@, group_setting_json(settings.mode, settings.group)),
            ("allow_view"@, JsonValue::Bool(settings.allow_view)),
            ("allow_download"@, JsonValue::Bool(settings.allow_download)),
            ("allow_push"@, JsonValue::Bool(settings.allow_push)),
            (
                "accounts"@,
                JsonValue::Object(
                    settings.accounts.map_values(
                        |a: (Seq<char>, bool, bool, bool)| account_member(a),
                    ),
                ),
            ),
        ],
    )
}

fn push_field(fields: &mut Vec<(String, Value)>, key: &str, v: Value)
    ensures
        view_fields(final(fields)@) == view_fields(old(fields)@).push((key@, v@)),
{
    let k = key.to_owned();
    proof { lemma_view_fields_push(old(fields)@, (k, v)); }
    fields.push((k, v));
}

proof fn lemma_view_fields_empty(fields: Seq<(String, Value)>)
    requires
        fields.len() == 0,
    ensures
        view_fields(fields) == Seq::<(Seq<char>, JsonValue)>::empty(),
{
}

fn permissions_value(view: bool, download: bool, push: bool) -> (r: Value)
    ensures
        r@ == permissions_json(view, download, push),
{
    let mut fields: Vec<(String, Value)> = Vec::new();
    proof { lemma_view_fields_empty(fields@); }
    push_field(&mut fields, "allow_view", Value::Bool(view));
    push_field(&mut fields, "allow_download", Value::Bool(download));
    push_field(&mut fields, "allow_push", Value::Bool(push));
    assert(view_fields(fields@) =~= seq![
        ("allow_view"@, JsonValue::Bool(view)),
        ("allow_download"@, JsonValue::Bool(download)),
        ("allow_push"@, JsonValue::Bool(push)),
    ]);
    let r = Value::Object(fields);
    assert(r@ == permissions_json(view, download, push));
    r
}

/// The body of a decision on an access request.
pub fn decide_request_body(approve: bool, view: bool, download: bool, push: bool) -> (r: String)
    ensures
        r@ == render_value(decide_request_json(approve, view, download, push)),
{
    let mut fields: Vec<(String, Value)> = Vec::new();
    proof { lemma_view_fields_empty(fields@); }
    push_field(&mut fields, "approve", Value::Bool(approve));
    push_field(&mut fields, "allow_view", Value::Bool(view));
    push_field(&mut fields, "allow_download", Value::Bool(download));
    push_field(&mut fields, "allow_push", Value::Bool(push));
    assert(view_fields(fields@) =~= seq![
        ("approve"@, JsonValue::Bool(approve)),
        ("allow_view"@, JsonValue::Bool(view)),
        ("allow_download"@, JsonValue::Bool(download)),
        ("allow_push"@, JsonValue::Bool(push)),
    ]);
    let v = Value::Object(fields);
    assert(v@ == decide_request_json(approve, view, download, push));
    to_json(&v)
}

/// The fields of the panel's one-field bodies.
#[derive(Clone, Copy, PartialEq, Eq, Structural, Debug)]
pub enum BodyField {
    /// `{"email": ...}`: an account to register.
    Email,
    /// `{"name": ...}`: a group to create.
    Name,
}

pub open spec fn body_field_key(f: BodyField) -> Seq<char> {
    match f {
        BodyField::Email => "email"@,
        BodyField::Name => "name"@,
    }
}

/// The body `{"<field>": "<value>"}`.
pub fn text_body(field: BodyField, value: &str) -> (r: String)
    ensures
        r@ == render_value(single_field_json(body_field_key(field), JsonValue::Str(value@))),
{
    let mut fields: Vec<(String, Value)> = Vec::new();
    proof { lemma_view_fields_empty(fields@); }
    let key = match field {
        BodyField::Email => "email",
        BodyField::Name => "name",
    };
    push_field(&mut fields, key, Value::Str(value.to_owned()));
    let v = Value::Object(fields);
    assert(v@ =~= single_field_json(body_field_key(field), JsonValue::Str(value@)));
    to_json(&v)
}

/// The body `{"allow": ...}` that grants or withdraws the permission to create repositories.
pub fn create_permission_body(allow: bool) -> (r: String)
    ensures
        r@ == render_value(single_field_json("allow"@, JsonValue::Bool(allow))),
{
    let mut fields: Vec<(String, Value)> = Vec::new();
    proof { lemma_view_fields_empty(fields@); }
    push_field(&mut fields, "allow", Value::Bool(allow));
    let v = Value::Object(fields);
    assert(v@ =~= single_field_json("allow"@, JsonValue::Bool(allow)));
    to_json(&v)
}

/// The body that saves the access settings of a repository.
pub fn access_request_body(settings: &AccessSettings) -> (r: String)
    ensures
        r@ == render_value(access_request_json(settings@)),
{
    let mut members: Vec<(String, Value)> = Vec::new();
    proof { lemma_view_fields_empty(members@); }
    let ghost accs = account_views(settings.accounts@);
    let mut i: usize = 0;
    while i < settings.accounts.len()
        invariant
            0 <= i <= settings.accounts.len(),
            accs == account_views(settings.accounts@),
            view_fields(members@) == accs.subrange(0, i as int).map_values(
                |a: (Seq<char>, bool, bool, bool)| account_member(a),
            ),
        decreases settings.accounts.len() - i,
    {
        let a = &settings.accounts[i];
        let ghost before = view_fields(members@);
        push_field(
            &mut members,
            a.email.as_str(),
            permissions_value(a.view, a.download, a.push),
        );
        proof {
            assert(accs[i as int] == a@);
            assert(accs.subrange(0, i + 1) =~= accs.subrange(0, i as int).push(accs[i as int]));
            assert(accs.subrange(0, i + 1).map_values(
                |a: (Seq<char>, bool, bool, bool)| account_member(a),
            ) =~= accs.subrange(0, i as int).map_values(
                |a: (Seq<char>, bool, bool, bool)| account_member(a),
            ).push(account_member(accs[i as int])));
        }
        i = i + 1;
    }
    assert(accs.subrange(0, settings.accounts.len() as int) =~= accs);
    let group_mode = settings.mode.clone() == "group".to_owned();
    let group = if group_mode && !settings.group.as_str().is_empty() {
        Value::Str(settings.group.clone())
    } else {
        Value::Null
    };
    assert(group@ == group_setting_json(settings.mode@, settings.group@));
    let mut fields: Vec<(String, Value)> = Vec::new();
    proof { lemma_view_fields_empty(fields@); }
    push_field(&mut fields, "mode", Value::Str(settings.mode.clone()));
    push_field(&mut fields, "group", group);
    push_field(&mut fields, "allow_view", Value::Bool(settings.allow_view));
    push_field(&mut fields, "allow_download", Value::Bool(settings.allow_download));
    push_field(&mut fields, "allow_push", Value::Bool(settings.allow_push));
    push_field(&mut fields, "accounts", Value::Object(members));
    assert(view_fields(fields@) =~= seq![
        ("mode"@, JsonValue::Str(settings.mode@)),
        ("group"@, group_setting_json(settings.mode@, settings.group@)),
        ("allow_view"@, JsonValue::Bool(settings.allow_view)),
        ("allow_download"@, JsonValue::Bool(settings.allow_download)),
        ("allow_push"@, JsonValue::Bool(settings.allow_push)),
        (
            "accounts"@,
            JsonValue::Object(
                accs.map_values(|a: (Seq<char>, bool, bool, bool)| account_member(a)),
            ),
        ),
    ]);
    let v = Value::Object(fields);
    assert(v@ == access_request_json(settings@));
    to_json(&v)
}

/// The server resources that the panel addresses by a name.
#[derive(Clone, Copy, PartialEq, Eq, Structural, Debug)]
pub enum Resource {
    /// The decision on an access request, by request id.
    RequestDecision,
    /// An account, by address.
    Account,
    /// An account's permission to create repositories, by address.
    CreatePermission,
    /// A group, by name.
    Group,
    /// A repository's access settings, by repository name.
    RepoAccess,
}

/// The path of `resource` for `name`, the name escaped as in a JSON string.
pub open spec fn spec_resource_path(resource: Resource, name: Seq<char>) -> Seq<char> {
    match resource {
        Resource::RequestDecision => "/api/accounts/requests/"@ + escape_text(name) + "/decide"@,
        Resource::Account => "/api/accounts/"@ + escape_text(name),
        Resource::CreatePermission => "/api/accounts/"@ + escape_text(name)
            + "/create-permission"@,
        Resource::Group => "/api/groups/"@ + escape_text(name),
        Resource::RepoAccess => "/api/repos/"@ + escape_text(name) + "/access"@,
    }
}

/// The path of `resource` for `name`.
pub fn resource_path(resource: Resource, name: &str) -> (r: String)
    ensures
        r@ == spec_resource_path(resource, name@),
{
    let e = json_escape(name);
    let mut m = String::new();
    match resource {
        Resource::RequestDecision => {
            m.append("/api/accounts/requests/");
            m.append(e.as_str());
            m.append("/decide");
        },
        Resource::Account => {
            m.append("/api/accounts/");
            m.append(e.as_str());
        },
        Resource::CreatePermission => {
            m.append("/api/accounts/");
            m.append(e.as_str());
            m.append("/create-permission");
        },
        Resource::Group => {
            m.append("/api/groups/");
            m.append(e.as_str());
        },
        Resource::RepoAccess => {
            m.append("/api/repos/");
            m.append(e.as_str());
            m.append("/access");
        },
    }
    assert(m@ =~= spec_resource_path(resource, name@));
    m
}

/// Whether `s` holds an `@`, the panel's test for an e-mail address.
fn looks_like_email(s: &str) -> (r: bool)
    ensures
        r == s@.contains('@'),
{
    let cs = chars_of(s);
    let mut i: usize = 0;
    while i < cs.len()
        invariant
            0 <= i <= cs.len(),
            cs@ == s@,
            forall|j: int| 0 <= j < i ==> cs@[j] != '@',
        decreases cs.len() - i,
    {
        if cs[i] == '@' {
            assert(s@[i as int] == '@');
            return true;
        }
        i = i + 1;
    }
    false
}


/// The values that the panel checks before it sends a request.
#[derive(Clone, Copy, PartialEq, Eq, Structural, Debug)]
pub enum PanelInput {
    /// The address of an account to register.
    AccountEmail,
    /// The address of an account to add to the access table.
    AccessRowEmail,
    /// The name of a group to create.
    GroupName,
    /// The repository chosen for the access settings.
    Repository,
}

/// The error to show for `value`, or `None` when the panel may go on: an
/// address must hold an `@`, a group name and a repository must not be empty.
pub open spec fn spec_panel_input_error(check: PanelInput, value: Seq<char>) -> Option<Seq<char>> {
    match check {
        PanelInput::AccountEmail => if value.contains('@') {
            None
        } else {
            Some("メールアドレスを入力してください"@)
        },
        PanelInput::AccessRowEmail => if value.contains('@') {
            None
        } else {
            Some("追加するアカウントのメールアドレスを入力してください"@)
        },
        PanelInput::GroupName => if value.len() > 0 {
            None
        } else {
            Some("グループ名を入力してください"@)
        },
        PanelInput::Repository => if value.len() > 0 {
            None
        } else {
            Some("リポジトリを選択してください"@)
        },
    }
}

/// The error to show for `value`, or `None` when the panel may go on.
pub fn panel_input_error(check: PanelInput, value: &str) -> (r: Option<String>)
    ensures
        match spec_panel_input_error(check, value@) {
            Some(m) => r matches Some(x) && x@ == m,
            None => r is None,
        },
{
    match check {
        PanelInput::AccountEmail => if looks_like_email(value) {
            None
        } else {
            Some("メールアドレスを入力してください".to_owned())
        },
        PanelInput::AccessRowEmail => if looks_like_email(value) {
            None
        } else {
            Some("追加するアカウントのメールアドレスを入力してください".to_owned())
        },
        PanelInput::GroupName => if !value.is_empty() {
            None
        } else {
            Some("グループ名を入力してください".to_owned())
        },
        PanelInput::Repository => if !value.is_empty() {
            None
        } else {
            Some("リポジトリを選択してください".to_owned())
        },
    }
}

/// Where the access settings of `repo` are read and written, or, when no
/// repository is chosen, the error to show in place of any request.
pub open spec fn spec_access_settings_path(repo: Seq<char>) -> Result<Seq<char>, Seq<char>> {
    match spec_panel_input_error(PanelInput::Repository, repo) {
        Some(m) => Err(m),
        None => Ok(spec_resource_path(Resource::RepoAccess, repo)),
    }
}

/// The path to load or save the access settings of `repo` at, or the error to
/// show, with no request sent, when `repo` is empty.
pub fn access_settings_path(repo: &str) -> (r: Result<String, String>)
    ensures
        match spec_access_settings_path(repo@) {
            Ok(p) => r matches Ok(x) && x@ == p,
            Err(m) => r matches Err(x) && x@ == m,
        },
        r is Err <==> repo@.len() == 0,
{
    match panel_input_error(PanelInput::Repository, repo) {
        Some(m) => Err(m),
        None => Ok(resource_path(Resource::RepoAccess, repo)),
    }
}

/// The permissions sent with a decision on an access request: those ticked
/// when it is approved, none when it is denied.
pub fn decision_flags(approve: bool, view: bool, download: bool, push: bool) -> (r: (
    bool,
    bool,
    bool,
))
    ensures
        approve ==> r == (view, download, push),
        !approve ==> r == (false, false, false),
{
    if approve {
        (view, download, push)
    } else {
        (false, false, false)
    }
}

// ---------------------------------------------------------------------------
// Laws of the request bodies

proof fn lemma_well_formed_fields(fs: Seq<(Seq<char>, JsonValue)>)
    requires
        forall|i: int| 0 <= i < fs.len() ==> well_formed(#[trigger] fs[i].1),
    ensures
        well_formed_fields(fs),
    decreases fs.len(),
{
    if fs.len() > 0 {
        let rest = fs.subrange(1, fs.len() as int);
        assert forall|i: int| 0 <= i < rest.len() implies well_formed(#[trigger] rest[i].1) by {
            assert(rest[i] == fs[i + 1]);
        }
        lemma_well_formed_fields(rest);
        assert(well_formed(fs[0].1));
    }
}

proof fn lemma_permissions_well_formed(view: bool, download: bool, push: bool)
    ensures
        well_formed(permissions_json(view, download, push)),
{
    let fs = seq![
        ("allow_view"@, JsonValue::Bool(view)),
        ("allow_download"@, JsonValue::Bool(download)),
        ("allow_push"@, JsonValue::Bool(push)),
    ];
    assert forall|i: int| 0 <= i < fs.len() implies well_formed(#[trigger] fs[i].1) by {}
    lemma_well_formed_fields(fs);
}

/// The body of a decision on an access request is JSON text that reads back
/// as the decision object.
pub proof fn law_decide_request_body_reads_back(approve: bool, view: bool, download: bool, push: bool)
    ensures
        spec_parse(render_value(decide_request_json(approve, view, download, push))) == Ok::<
            JsonValue,
            crate::rjson::JsonError,
        >(decide_request_json(approve, view, download, push)),
{
    let v = decide_request_json(approve, view, download, push);
    let fs = seq![
        ("approve"@, JsonValue::Bool(approve)),
        ("allow_view"@, JsonValue::Bool(view)),
        ("allow_download"@, JsonValue::Bool(download)),
        ("allow_push"@, JsonValue::Bool(push)),
    ];
    assert forall|i: int| 0 <= i < fs.len() implies well_formed(#[trigger] fs[i].1) by {}
    lemma_well_formed_fields(fs);
    law_written_value_reads_back(v, Seq::empty());
    assert(render_value(v) + Seq::<char>::empty() =~= render_value(v));
}

/// The body that saves access settings is JSON text that reads back as the
/// settings object: the mode, the group (in `group` mode), the three flags and
/// each account's permissions, in order.
pub proof fn law_access_request_body_reads_back(settings: AccessModel)
    ensures
        spec_parse(render_value(access_request_json(settings))) == Ok::<
            JsonValue,
            crate::rjson::JsonError,
        >(access_request_json(settings)),
{
    let v = access_request_json(settings);
    let members = settings.accounts.map_values(
        |a: (Seq<char>, bool, bool, bool)| account_member(a),
    );
    assert forall|i: int| 0 <= i < members.len() implies well_formed(#[trigger] members[i].1) by {
        let a = settings.accounts[i];
        lemma_permissions_well_formed(a.1, a.2, a.3);
    }
    lemma_well_formed_fields(members);
    let fs = seq![
        ("mode"@, JsonValue::Str(settings.mode)),
        ("group"@, group_setting_json(settings.mode, settings.group)),
        ("allow_view"@, JsonValue::Bool(settings.allow_view)),
        ("allow_download"@, JsonValue::Bool(settings.allow_download)),
        ("allow_push"@, JsonValue::Bool(settings.allow_push)),
        ("accounts"@, JsonValue::Object(members)),
    ];
    assert forall|i: int| 0 <= i < fs.len() implies well_formed(#[trigger] fs[i].1) by {
        if i == 5 {
            assert(fs[5].1 == JsonValue::Object(members));
        }
    }
    lemma_well_formed_fields(fs);
    law_written_value_reads_back(v, Seq::empty());
    assert(render_value(v) + Seq::<char>::empty() =~= render_value(v));
}

// ---------------------------------------------------------------------------
// Laws: each permission travels under its own name

/// Whether field `key` of `v` is the boolean `true`.
pub open spec fn is_true_field(v: JsonValue, key: Seq<char>) -> bool {
    field_of(v, key) == Some(JsonValue::Bool(true))
}

/// Loaded access settings take each permission from the response's field of
/// the same name, and from nothing else: a flag is on exactly when its own
/// field is `true`. The same holds of each account's three permissions.
pub proof fn law_loaded_permissions_come_from_their_own_fields(text: String, v: JsonValue)
    requires
        spec_parse(text@) == Ok::<JsonValue, crate::rjson::JsonError>(v),
    ensures
        spec_load_access(Some((200u16, text))) matches Ok(a) && {
            &&& a.allow_view == is_true_field(v, "allow_view"@)
            &&& a.allow_download == is_true_field(v, "allow_download"@)
            &&& a.allow_push == is_true_field(v, "allow_push"@)
            &&& (field_of(v, "accounts"@) matches Some(JsonValue::Object(es)) ==> {
                &&& a.accounts.len() == es.len()
                &&& forall|i: int|
                    0 <= i < es.len() ==> #[trigger] a.accounts[i] == (
                        es[i].0,
                        is_true_field(es[i].1, "allow_view"@),
                        is_true_field(es[i].1, "allow_download"@),
                        is_true_field(es[i].1, "allow_push"@),
                    )
            })
        },
{
}

/// The field found under `key` is the first one that bears it.
proof fn lemma_lookup_at(fs: Seq<(Seq<char>, JsonValue)>, key: Seq<char>, i: int)
    requires
        0 <= i < fs.len(),
        fs[i].0 == key,
        forall|j: int| 0 <= j < i ==> fs[j].0 != key,
    ensures
        lookup(fs, key) == Some(fs[i].1),
    decreases i,
{
    if i > 0 {
        assert(fs[0].0 != key);
        let r = fs.drop_first();
        assert forall|j: int| 0 <= j < i - 1 implies r[j].0 != key by {
            assert(r[j] == fs[j + 1]);
        }
        lemma_lookup_at(r, key, i - 1);
    }
}

/// The names of the fields of the request bodies are pairwise different.
proof fn lemma_permission_keys_differ()
    ensures
        "approve"@ != "allow_view"@,
        "approve"@ != "allow_download"@,
        "approve"@ != "allow_push"@,
        "allow_view"@ != "allow_download"@,
        "allow_view"@ != "allow_push"@,
        "allow_download"@ != "allow_push"@,
        "mode"@ != "group"@,
        "mode"@ != "allow_view"@,
        "mode"@ != "allow_download"@,
        "mode"@ != "allow_push"@,
        "group"@ != "allow_view"@,
        "group"@ != "allow_download"@,
        "group"@ != "allow_push"@,
        "accounts"@ != "mode"@,
        "accounts"@ != "group"@,
        "accounts"@ != "allow_view"@,
        "accounts"@ != "allow_download"@,
        "accounts"@ != "allow_push"@,
{
    reveal_strlit("approve");
    reveal_strlit("allow_view");
    reveal_strlit("allow_download");
    reveal_strlit("allow_push");
    reveal_strlit("mode");
    reveal_strlit("group");
    reveal_strlit("accounts");
    assert("accounts"@.len() != "mode"@.len());
    assert("accounts"@.len() != "group"@.len());
    assert("accounts"@.len() != "allow_view"@.len());
    assert("accounts"@.len() != "allow_download"@.len());
    assert("approve"@[1] != "allow_view"@[1]);
    assert("approve"@[1] != "allow_push"@[1]);
    assert("allow_view"@[6] != "allow_push"@[6]);
    assert("allow_view"@.len() != "allow_download"@.len());
    assert("allow_download"@.len() != "allow_push"@.len());
    assert("approve"@.len() != "allow_download"@.len());
    assert("mode"@.len() != "group"@.len());
    assert("mode"@.len() != "allow_view"@.len());
    assert("group"@.len() != "allow_view"@.len());
}

/// A decision body reads back as an object holding the decision under
/// `approve` and each permission under its own name, exactly as given.
pub proof fn law_decide_request_body_fields(approve: bool, view: bool, download: bool, push: bool)
    ensures
        spec_parse(render_value(decide_request_json(approve, view, download, push))) matches Ok(o)
            && {
            &&& field_of(o, "approve"@) == Some(JsonValue::Bool(approve))
            &&& field_of(o, "allow_view"@) == Some(JsonValue::Bool(view))
            &&& field_of(o, "allow_download"@) == Some(JsonValue::Bool(download))
            &&& field_of(o, "allow_push"@) == Some(JsonValue::Bool(push))
        },
{
    law_decide_request_body_reads_back(approve, view, download, push);
    let body = seq![
        ("approve"@, JsonValue::Bool(approve)),
        ("allow_view"@, JsonValue::Bool(view)),
        ("allow_download"@, JsonValue::Bool(download)),
        ("allow_push"@, JsonValue::Bool(push)),
    ];
    assert(decide_request_json(approve, view, download, push) == JsonValue::Object(body));
    lemma_permission_keys_differ();
    lemma_lookup_at(body, "approve"@, 0);
    lemma_lookup_at(body, "allow_view"@, 1);
    lemma_lookup_at(body, "allow_download"@, 2);
    lemma_lookup_at(body, "allow_push"@, 3);
}

/// A saved-settings body reads back as an object holding the mode and each of
/// the three permissions under its own name, exactly as in the settings; the
/// group only in `group` mode when one is given (`null` otherwise); and, for
/// each account in order, its address with its own three permissions.
pub proof fn law_access_request_body_fields(settings: AccessModel)
    ensures
        spec_parse(render_value(access_request_json(settings))) matches Ok(o) && {
            &&& field_of(o, "mode"@) == Some(JsonValue::Str(settings.mode))
            &&& field_of(o, "allow_view"@) == Some(JsonValue::Bool(settings.allow_view))
            &&& field_of(o, "allow_download"@) == Some(JsonValue::Bool(settings.allow_download))
            &&& field_of(o, "allow_push"@) == Some(JsonValue::Bool(settings.allow_push))
            &&& field_of(o, "group"@) == Some(
                if settings.mode == "group"@ && settings.group.len() > 0 {
                    JsonValue::Str(settings.group)
                } else {
                    JsonValue::Null
                },
            )
            &&& field_of(o, "accounts"@) matches Some(JsonValue::Object(ms)) && {
                &&& ms.len() == settings.accounts.len()
                &&& forall|i: int|
                    0 <= i < ms.len() ==> {
                        &&& (#[trigger] ms[i]).0 == settings.accounts[i].0
                        &&& field_of(ms[i].1, "allow_view"@) == Some(
                            JsonValue::Bool(settings.accounts[i].1),
                        )
                        &&& field_of(ms[i].1, "allow_download"@) == Some(
                            JsonValue::Bool(settings.accounts[i].2),
                        )
                        &&& field_of(ms[i].1, "allow_push"@) == Some(
                            JsonValue::Bool(settings.accounts[i].3),
                        )
                    }
            }
        },
{
    law_access_request_body_reads_back(settings);
    let body = seq![
        ("mode"@, JsonValue::Str(settings.mode)),
        ("group"@, group_setting_json(settings.mode, settings.group)),
        ("allow_view"@, JsonValue::Bool(settings.allow_view)),
        ("allow_download"@, JsonValue::Bool(settings.allow_download)),
        ("allow_push"@, JsonValue::Bool(settings.allow_push)),
        (
            "accounts"@,
            JsonValue::Object(
                settings.accounts.map_values(|a: (Seq<char>, bool, bool, bool)| account_member(a)),
            ),
        ),
    ];
    assert(access_request_json(settings) == JsonValue::Object(body));
    lemma_permission_keys_differ();
    lemma_lookup_at(body, "mode"@, 0);
    lemma_lookup_at(body, "allow_view"@, 2);
    lemma_lookup_at(body, "allow_download"@, 3);
    lemma_lookup_at(body, "allow_push"@, 4);
    lemma_lookup_at(body, "group"@, 1);
    lemma_lookup_at(body, "accounts"@, 5);
    let ms = settings.accounts.map_values(|a: (Seq<char>, bool, bool, bool)| account_member(a));
    assert forall|i: int| 0 <= i < ms.len() implies {
        &&& (#[trigger] ms[i]).0 == settings.accounts[i].0
        &&& field_of(ms[i].1, "allow_view"@) == Some(JsonValue::Bool(settings.accounts[i].1))
        &&& field_of(ms[i].1, "allow_download"@) == Some(JsonValue::Bool(settings.accounts[i].2))
        &&& field_of(ms[i].1, "allow_push"@) == Some(JsonValue::Bool(settings.accounts[i].3))
    } by {
        let a = settings.accounts[i];
        let perms = seq![
            ("allow_view"@, JsonValue::Bool(a.1)),
            ("allow_download"@, JsonValue::Bool(a.2)),
            ("allow_push"@, JsonValue::Bool(a.3)),
        ];
        assert(ms[i].1 == JsonValue::Object(perms));
        lemma_lookup_at(perms, "allow_view"@, 0);
        lemma_lookup_at(perms, "allow_download"@, 1);
        lemma_lookup_at(perms, "allow_push"@, 2);
    }
}

/// The text of a permission row up to the class of its view box.
pub open spec fn row_up_to_view(email: Seq<char>) -> Seq<char> {
    "<strong>"@ + spec_html_escape(email) + "</strong> <label><input type=\"checkbox\" class=\"acc-view\" "@
}

/// The text of a permission row up to the class of its download box.
pub open spec fn row_up_to_download(email: Seq<char>, view: bool) -> Seq<char> {
    row_up_to_view(email) + (if view {
        "checked"@
    } else {
        Seq::empty()
    }) + "> 閲覧</label> <label><input type=\"checkbox\" class=\"acc-dl\" "@
}

/// The text of a permission row up to the class of its push box.
pub open spec fn row_up_to_push(email: Seq<char>, view: bool, download: bool) -> Seq<char> {
    row_up_to_download(email, view) + (if download {
        "checked"@
    } else {
        Seq::empty()
    }) + "> ダウンロード</label> <label><input type=\"checkbox\" class=\"acc-push\" "@
}

/// `on` is `off` with `checked` inserted right after its first `h.len()`
/// characters, which are `h`.
pub open spec fn ticked_after(off: Seq<char>, on: Seq<char>, h: Seq<char>) -> bool {
    &&& h.len() <= off.len()
    &&& off.subrange(0, h.len() as int) == h
    &&& on == h + "checked"@ + off.subrange(h.len() as int, off.len() as int)
}

proof fn lemma_split_at(h: Seq<char>, r: Seq<char>)
    ensures
        (h + r).subrange(0, h.len() as int) == h,
        (h + r).subrange(h.len() as int, (h + r).len() as int) == r,
{
    assert((h + r).subrange(0, h.len() as int) =~= h);
    assert((h + r).subrange(h.len() as int, (h + r).len() as int) =~= r);
}

#[verifier::spinoff_prover]
proof fn lemma_row_view_box(email: Seq<char>, download: bool, push: bool)
    ensures
        ticked_after(
            spec_access_row_html(email, false, download, push),
            spec_access_row_html(email, true, download, push),
            row_up_to_view(email),
        ),
{
    let h = row_up_to_view(email);
    let vtail = "> 閲覧</label> <label><input type=\"checkbox\" class=\"acc-dl\" "@;
    let dtail = "> ダウンロード</label> <label><input type=\"checkbox\" class=\"acc-push\" "@;
    let ptail = "> push</label> <button type=\"button\" class=\"btn-remove-access-row\">削除</button>"@;
    let r = vtail + checked_text(download) + dtail + checked_text(push) + ptail;
    assert(spec_access_row_html(email, false, download, push) =~= h + r);
    assert(spec_access_row_html(email, true, download, push) =~= h + "checked"@ + r);
    lemma_split_at(h, r);
}

#[verifier::spinoff_prover]
proof fn lemma_row_download_box(email: Seq<char>, view: bool, push: bool)
    ensures
        ticked_after(
            spec_access_row_html(email, view, false, push),
            spec_access_row_html(email, view, true, push),
            row_up_to_download(email, view),
        ),
{
    let h = row_up_to_download(email, view);
    let dtail = "> ダウンロード</label> <label><input type=\"checkbox\" class=\"acc-push\" "@;
    let ptail = "> push</label> <button type=\"button\" class=\"btn-remove-access-row\">削除</button>"@;
    let r = dtail + checked_text(push) + ptail;
    assert(spec_access_row_html(email, view, false, push) =~= h + r);
    assert(spec_access_row_html(email, view, true, push) =~= h + "checked"@ + r);
    lemma_split_at(h, r);
}

#[verifier::spinoff_prover]
proof fn lemma_row_push_box(email: Seq<char>, view: bool, download: bool)
    ensures
        ticked_after(
            spec_access_row_html(email, view, download, false),
            spec_access_row_html(email, view, download, true),
            row_up_to_push(email, view, download),
        ),
{
    let h = row_up_to_push(email, view, download);
    let r = "> push</label> <button type=\"button\" class=\"btn-remove-access-row\">削除</button>"@;
    assert(spec_access_row_html(email, view, download, false) =~= h + r);
    assert(spec_access_row_html(email, view, download, true) =~= h + "checked"@ + r);
    lemma_split_at(h, r);
}

/// Each box of a permission row is ticked by its own flag alone: turning a
/// flag on inserts `checked` right after that box's class (`acc-view`,
/// `acc-dl` or `acc-push`), and changes nothing else of the row.
pub proof fn law_access_row_boxes(email: Seq<char>, view: bool, download: bool, push: bool)
    ensures
        ticked_after(
            spec_access_row_html(email, false, download, push),
            spec_access_row_html(email, true, download, push),
            row_up_to_view(email),
        ),
        ticked_after(
            spec_access_row_html(email, view, false, push),
            spec_access_row_html(email, view, true, push),
            row_up_to_download(email, view),
        ),
        ticked_after(
            spec_access_row_html(email, view, download, false),
            spec_access_row_html(email, view, download, true),
            row_up_to_push(email, view, download),
        ),
{
    lemma_row_view_box(email, download, push);
    lemma_row_download_box(email, view, push);
    lemma_row_push_box(email, view, download);
}

// ---------------------------------------------------------------------------
// Law: the new-repository label

proof fn lemma_lookup_push(
    fs: Seq<(Seq<char>, JsonValue)>,
    k: Seq<char>,
    v: JsonValue,
    key: Seq<char>,
)
    ensures
        lookup(fs.push((k, v)), key) == (if lookup(fs, key) is Some {
            lookup(fs, key)
        } else if k == key {
            Some(v)
        } else {
            None
        }),
    decreases fs.len(),
{
    if fs.len() > 0 {
        assert(fs.push((k, v))[0] == fs[0]);
        assert(fs.push((k, v)).drop_first() =~= fs.drop_first().push((k, v)));
        lemma_lookup_push(fs.drop_first(), k, v, key);
    } else {
        assert(fs.push((k, v)).drop_first() =~= fs);
    }
}

/// The label that marks a request for a new repository.
pub open spec fn create_label_text() -> Seq<char> {
    " [新規リポジトリ作成申請]"@
}

/// `on` is `off` with `label` inserted just before a `</div>` of `off`.
pub open spec fn label_inserted(off: Seq<char>, on: Seq<char>, label: Seq<char>) -> bool {
    exists|n: int|
        0 <= n && n + 6 <= off.len() && #[trigger] off.subrange(n, n + 6) == "</div>"@ && on
            == off.subrange(0, n) + label + off.subrange(n, off.len() as int)
}

/// Adding the flag to a request that lacks it leaves every other field as it was.
#[verifier::spinoff_prover]
proof fn lemma_flag_added(fs: Seq<(Seq<char>, JsonValue)>, b: bool)
    requires
        lookup(fs, "is_create_repo_request"@) is None,
    ensures
        ({
            let item = JsonValue::Object(fs.push(("is_create_repo_request"@, JsonValue::Bool(b))));
            &&& bool_field(item, "is_create_repo_request"@) == Some(b)
            &&& bool_field(JsonValue::Object(fs), "is_create_repo_request"@) is None
            &&& str_field(item, "id"@) == str_field(JsonValue::Object(fs), "id"@)
            &&& str_field(item, "email"@) == str_field(JsonValue::Object(fs), "email"@)
            &&& str_field(item, "repo"@) == str_field(JsonValue::Object(fs), "repo"@)
            &&& str_field(item, "message"@) == str_field(JsonValue::Object(fs), "message"@)
        }),
{
    let key = "is_create_repo_request"@;
    reveal_strlit("is_create_repo_request");
    reveal_strlit("id");
    reveal_strlit("email");
    reveal_strlit("repo");
    reveal_strlit("message");
    assert(key.len() != "id"@.len());
    assert(key.len() != "email"@.len());
    assert(key.len() != "repo"@.len());
    assert(key.len() != "message"@.len());
    lemma_lookup_push(fs, key, JsonValue::Bool(b), key);
    lemma_lookup_push(fs, key, JsonValue::Bool(b), "id"@);
    lemma_lookup_push(fs, key, JsonValue::Bool(b), "email"@);
    lemma_lookup_push(fs, key, JsonValue::Bool(b), "repo"@);
    lemma_lookup_push(fs, key, JsonValue::Bool(b), "message"@);
}

/// The header of a request item up to the place of the new-repository label.
pub open spec fn request_head(item: JsonValue) -> Seq<char> {
    "<li data-id=\""@ + spec_html_escape(
        match str_field(item, "id"@) {
            Some(t) => t,
            None => Seq::empty(),
        },
    ) + "\"><div><strong>"@ + spec_html_escape(
        match str_field(item, "email"@) {
            Some(t) => t,
            None => Seq::empty(),
        },
    ) + "</strong> "@ + match str_field(item, "repo"@) {
        Some(r) => " → "@ + spec_html_escape(r),
        None => " (アカウント登録のみ)"@,
    }
}

/// The rest of a request item after its header and label.
pub open spec fn request_tail(item: JsonValue) -> Seq<char> {
    let id = spec_html_escape(
        match str_field(item, "id"@) {
            Some(t) => t,
            None => Seq::empty(),
        },
    );
    let message_html = match str_field(item, "message"@) {
        Some(m) => if m.len() > 0 {
            "<div><em>"@ + spec_html_escape(m) + "</em></div>"@
        } else {
            Seq::empty()
        },
        None => Seq::empty(),
    };
    "</div>"@ + message_html
        + "<label><input type=\"checkbox\" class=\"req-view\" checked> 閲覧</label> <label><input type=\"checkbox\" class=\"req-dl\" checked> ダウンロード</label> <label><input type=\"checkbox\" class=\"req-push\"> push</label> <button type=\"button\" class=\"btn-approve\" data-id=\""@
        + id + "\">承認</button> <button type=\"button\" class=\"btn-deny\" data-id=\""@ + id
        + "\">却下</button></li>"@
}

#[verifier::spinoff_prover]
proof fn lemma_item_split(item: JsonValue)
    ensures
        request_item_html(item) == request_head(item) + (if bool_field(
            item,
            "is_create_repo_request"@,
        ) == Some(true) {
            create_label_text()
        } else {
            Seq::empty()
        }) + request_tail(item),
        request_tail(item).len() >= 6,
        request_tail(item).subrange(0, 6) == "</div>"@,
{
    reveal_strlit("</div>");
    let t = request_tail(item);
    assert(t.subrange(0, 6) =~= "</div>"@);
    let cl = if bool_field(item, "is_create_repo_request"@) == Some(true) {
        create_label_text()
    } else {
        Seq::empty()
    };
    assert(request_item_html(item) =~= request_head(item) + cl + t);
}

/// A pending request is marked as a request for a new repository exactly when
/// its `is_create_repo_request` field is `true`: with the field `false` its
/// item reads as if the field were absent, and with the field `true` the
/// label is inserted at the end of the item's header, nothing else changing.
#[verifier::spinoff_prover]
pub proof fn law_request_item_create_label(fs: Seq<(Seq<char>, JsonValue)>)
    requires
        lookup(fs, "is_create_repo_request"@) is None,
    ensures
        request_item_html(
            JsonValue::Object(fs.push(("is_create_repo_request"@, JsonValue::Bool(false)))),
        ) == request_item_html(JsonValue::Object(fs)),
        label_inserted(
            request_item_html(JsonValue::Object(fs)),
            request_item_html(
                JsonValue::Object(fs.push(("is_create_repo_request"@, JsonValue::Bool(true)))),
            ),
            create_label_text(),
        ),
{
    let key = "is_create_repo_request"@;
    let base = JsonValue::Object(fs);
    let no = JsonValue::Object(fs.push((key, JsonValue::Bool(false))));
    let yes = JsonValue::Object(fs.push((key, JsonValue::Bool(true))));
    lemma_flag_added(fs, false);
    lemma_flag_added(fs, true);
    assert(request_head(no) == request_head(base));
    assert(request_head(yes) == request_head(base));
    assert(request_tail(no) == request_tail(base));
    assert(request_tail(yes) == request_tail(base));
    lemma_item_split(base);
    lemma_item_split(no);
    lemma_item_split(yes);
    let h = request_head(base);
    let t = request_tail(base);
    let off = request_item_html(base);
    let on = request_item_html(yes);
    let n = h.len() as int;
    assert(off =~= h + t);
    assert(off.subrange(0, n) =~= h);
    assert(off.subrange(n, off.len() as int) =~= t);
    assert(off.subrange(n, n + 6) =~= t.subrange(0, 6));
    assert(on =~= off.subrange(0, n) + create_label_text() + off.subrange(n, off.len() as int));
}

} // verus!
