use discord_interactions::rest::interpret_response;
use discord_interactions::rest::AuthPrefix;
use discord_interactions::rest::FileData;
use discord_interactions::rest::RequestData;
use discord_interactions::rest::RequestMethod;
use discord_interactions::rest::ResolvedBody;
use discord_interactions::rest::RESTError;
use discord_interactions::rest::REST;
use discord_interactions::rest_client;
use discord_interactions::RESTConfig;
use percent_encoding::utf8_percent_encode;
use percent_encoding::NON_ALPHANUMERIC;

fn client() -> REST {
    REST::new("https://discord.com/api", "10", Some("tok"), AuthPrefix::Bot)
}

fn mk_file(name: &str) -> FileData {
    FileData {
        content_type: "image/png".to_string(),
        data: vec![1, 2, 3],
        key: None,
        name: name.to_string(),
    }
}

fn pairs(v: &[(&str, &str)]) -> Vec<(String, String)> {
    v.iter().map(|(k, val)| (k.to_string(), val.to_string())).collect()
}

#[test]
fn default_descriptor_is_authed_and_versioned() {
    let d = RequestData::default();
    assert!(d.auth);
    assert!(d.versioned);
    assert!(d.body.is_none());
    assert!(d.files.is_empty());
    assert!(d.headers.is_empty());
    assert!(d.query.is_empty());
    assert!(d.reason.is_none());
    assert!(d.auth_prefix.is_none());
    assert!(d.append_to_form_data.is_empty());
}

#[test]
fn auth_prefixes_render_to_fixed_text() {
    assert_eq!(AuthPrefix::Bot.as_str(), "Bot");
    assert_eq!(AuthPrefix::Bearer.as_str(), "Bearer");
}

#[test]
fn json_body_without_files_gets_json_content_type() {
    let mut d = RequestData::default();
    d.body = Some(b"{\"a\":1}".to_vec());
    let r = client().resolve_request(RequestMethod::POST, "/channels/1".to_string(), d).unwrap();
    match r.body {
        ResolvedBody::Json(bytes) => assert_eq!(bytes, b"{\"a\":1}".to_vec()),
        _ => panic!("expected a JSON body"),
    }
    assert_eq!(
        r.headers,
        pairs(&[("Authorization", "Bot tok"), ("Content-Type", "application/json")])
    );
    assert_eq!(r.url, "https://discord.com/api/v10/channels/1");
}

#[test]
fn no_body_and_no_files_sends_nothing() {
    let d = RequestData::default();
    let r = client().resolve_request(RequestMethod::GET, "/gateway".to_string(), d).unwrap();
    assert!(matches!(r.body, ResolvedBody::Empty));
    assert_eq!(r.headers, pairs(&[("Authorization", "Bot tok")]));
}

#[test]
fn files_always_force_multipart() {
    let mut d = RequestData::default();
    d.files = vec![mk_file("a.png")];
    d.body = Some(b"{}".to_vec());
    let r = client().resolve_request(RequestMethod::POST, "/channels/1".to_string(), d).unwrap();
    match r.body {
        ResolvedBody::Multipart(parts) => {
            assert_eq!(parts.len(), 2);
            assert_eq!(parts[0].name, "files[0]");
            assert_eq!(parts[0].filename.as_deref(), Some("a.png"));
            assert_eq!(parts[0].content_type.as_deref(), Some("image/png"));
            assert_eq!(parts[0].value, vec![1, 2, 3]);
            assert_eq!(parts[1].name, "payload_json");
            assert_eq!(parts[1].value, b"{}".to_vec());
        },
        _ => panic!("expected a multipart body"),
    }
    // A multipart request gets no JSON content type of its own.
    assert_eq!(r.headers, pairs(&[("Authorization", "Bot tok")]));
}

#[test]
fn file_keys_default_to_positional_names() {
    let mut d = RequestData::default();
    d.files = vec![mk_file("a.png"), mk_file("b.png"), mk_file("c.png")];
    let r = client().resolve_request(RequestMethod::POST, "/channels/1".to_string(), d).unwrap();
    match r.body {
        ResolvedBody::Multipart(parts) => {
            assert_eq!(parts.len(), 3);
            assert_eq!(parts[0].name, "files[0]");
            assert_eq!(parts[1].name, "files[1]");
            assert_eq!(parts[2].name, "files[2]");
        },
        _ => panic!("expected a multipart body"),
    }
}

#[test]
fn explicit_file_key_wins_and_form_fields_follow() {
    let mut d = RequestData::default();
    let mut f = mk_file("a.png");
    f.key = Some("avatar".to_string());
    d.files = vec![f, mk_file("b.png")];
    d.append_to_form_data = pairs(&[("note", "hello")]);
    let r = client().resolve_request(RequestMethod::POST, "/channels/1".to_string(), d).unwrap();
    match r.body {
        ResolvedBody::Multipart(parts) => {
            assert_eq!(parts.len(), 3);
            assert_eq!(parts[0].name, "avatar");
            assert_eq!(parts[1].name, "files[1]");
            assert_eq!(parts[2].name, "note");
            assert_eq!(parts[2].value, b"hello".to_vec());
            assert!(parts[2].filename.is_none());
            assert!(parts[2].content_type.is_none());
        },
        _ => panic!("expected a multipart body"),
    }
}

#[test]
fn missing_token_with_auth_fails_before_anything_else() {
    let no_token = REST::new("https://discord.com/api", "10", None, AuthPrefix::Bot);
    let d = RequestData::default();
    match no_token.resolve_request(RequestMethod::GET, "/gateway".to_string(), d) {
        Err(RESTError::RequestError(msg)) => {
            assert_eq!(msg, "Expected token to be set for this request, but none was present");
        },
        _ => panic!("expected a configuration error"),
    }
}

#[test]
fn unauthed_request_needs_no_token() {
    let no_token = REST::new("https://discord.com/api", "10", None, AuthPrefix::Bot);
    let mut d = RequestData::default();
    d.auth = false;
    let r = no_token.resolve_request(RequestMethod::GET, "/gateway".to_string(), d).unwrap();
    assert!(r.headers.is_empty());
}

#[test]
fn query_keeps_insertion_order_and_last_write_wins() {
    let mut d = RequestData::default();
    d.query = pairs(&[("a", "1"), ("b", "2"), ("a", "3")]);
    let r = client().resolve_request(RequestMethod::GET, "/guilds".to_string(), d).unwrap();
    assert_eq!(r.url, "https://discord.com/api/v10/guilds?a=3&b=2");
}

#[test]
fn query_values_are_form_urlencoded() {
    let mut d = RequestData::default();
    d.query = pairs(&[("q", "b c/d"), ("keep", "A-z.9_*")]);
    d.versioned = false;
    let r = client().resolve_request(RequestMethod::GET, "/x".to_string(), d).unwrap();
    assert_eq!(r.url, "https://discord.com/api/x?q=b+c%2Fd&keep=A-z.9_*");
}

#[test]
fn reason_header_is_percent_encoded() {
    let mut d = RequestData::default();
    let reason = "spam cleanup: rule #2, crème";
    d.reason = Some(reason.to_string());
    let r = client().resolve_request(RequestMethod::DELETE, "/messages/9".to_string(), d).unwrap();
    let expected = utf8_percent_encode(reason, NON_ALPHANUMERIC).to_string();
    assert_eq!(
        r.headers,
        pairs(&[("Authorization", "Bot tok"), ("X-Audit-Log-Reason", expected.as_str())])
    );
}

#[test]
fn caller_headers_apply_last_and_override() {
    let mut d = RequestData::default();
    d.body = Some(b"{}".to_vec());
    d.headers = pairs(&[("Content-Type", "text/plain"), ("X-Extra", "1")]);
    let r = client().resolve_request(RequestMethod::POST, "/x".to_string(), d).unwrap();
    assert_eq!(
        r.headers,
        pairs(&[
            ("Authorization", "Bot tok"),
            ("Content-Type", "text/plain"),
            ("X-Extra", "1"),
        ])
    );
}

#[test]
fn descriptor_auth_prefix_overrides_client_default() {
    let mut d = RequestData::default();
    d.auth_prefix = Some(AuthPrefix::Bearer);
    let r = client().resolve_request(RequestMethod::GET, "/x".to_string(), d).unwrap();
    assert_eq!(r.headers, pairs(&[("Authorization", "Bearer tok")]));
}

#[test]
fn non_2xx_response_carries_raw_bytes_verbatim() {
    let raw = b"{\"message\":\"boom\"}".to_vec();
    match interpret_response(403, raw.clone()) {
        Err(RESTError::DiscordAPIError(e)) => assert_eq!(e.raw, raw),
        _ => panic!("expected an API error"),
    }
}

#[test]
fn errors_describe_themselves() {
    let api = interpret_response(500, b"x".to_vec()).unwrap_err();
    assert_eq!(api.describe(), "discord api error");
    let config = RESTError::RequestError("no token".to_string());
    assert_eq!(config.describe(), "request error");
}

#[test]
fn success_response_returns_bytes() {
    let raw = b"ok".to_vec();
    assert_eq!(interpret_response(204, raw.clone()).unwrap(), raw);
}

#[test]
fn rest_config_defaults_and_client_construction() {
    let config = RESTConfig::new("secret");
    assert_eq!(config.api, "https://discord.com/api");
    assert_eq!(config.version, "10");
    assert_eq!(config.token, Some("secret"));
    assert!(matches!(config.auth_prefix, AuthPrefix::Bot));
    let c = rest_client(config);
    assert_eq!(c.api, "https://discord.com/api");
    assert_eq!(c.version, "10");
    assert_eq!(c.token.as_deref(), Some("secret"));
    assert!(matches!(c.auth_prefix, AuthPrefix::Bot));
}
