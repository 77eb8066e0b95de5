use discord_interactions::interaction::InteractionResponse;
use discord_interactions::interaction::InteractionResponseData;
use discord_interactions::interaction::InteractionResponseKind;
use discord_interactions::json::parse_response;
use discord_interactions::json::render_response;
use discord_interactions::text::percent_encode;
use discord_interactions::text::u64_to_dec;
use discord_interactions::text::usize_to_dec;
use percent_encoding::utf8_percent_encode;
use percent_encoding::NON_ALPHANUMERIC;

fn message(content: Option<&str>, flags: Option<u64>) -> InteractionResponse {
    InteractionResponse {
        kind: InteractionResponseKind::ChannelMessageWithSource,
        data: Some(InteractionResponseData {
            content: content.map(|c| c.to_string()),
            flags,
        }),
    }
}

fn pong() -> InteractionResponse {
    InteractionResponse { kind: InteractionResponseKind::Pong, data: None }
}

#[test]
fn pong_renders_exactly() {
    assert_eq!(render_response(&pong()), "{\"type\":1}");
}

#[test]
fn message_renders_exactly() {
    let r = message(Some("hi"), Some(64));
    assert_eq!(
        render_response(&r),
        "{\"type\":4,\"data\":{\"content\":\"hi\",\"flags\":64}}"
    );
}

#[test]
fn special_characters_are_escaped() {
    let r = message(Some("a\"b\\c\nd"), None);
    assert_eq!(
        render_response(&r),
        "{\"type\":4,\"data\":{\"content\":\"a\\\"b\\\\c\\u000Ad\"}}"
    );
}

#[test]
fn rendered_text_is_valid_json() {
    let r = message(Some("crème \"x\"\t"), Some(4096));
    let rendered = render_response(&r);
    let v: serde_json::Value = serde_json::from_str(&rendered).unwrap();
    assert_eq!(v["type"].as_u64(), Some(4));
    assert_eq!(v["data"]["content"].as_str(), Some("crème \"x\"\t"));
    assert_eq!(v["data"]["flags"].as_u64(), Some(4096));
}

#[test]
fn round_trip_preserves_every_field() {
    let samples = vec![
        pong(),
        InteractionResponse {
            kind: InteractionResponseKind::DeferredUpdateMessage,
            data: None,
        },
        message(Some("hello"), Some(64)),
        message(Some(""), None),
        message(None, Some(18446744073709551615)),
        message(None, None),
        message(Some("quote \" backslash \\ newline \n tab \t unicode é"), Some(1)),
        InteractionResponse {
            kind: InteractionResponseKind::UpdateMessage,
            data: Some(InteractionResponseData { content: None, flags: Some(0) }),
        },
        InteractionResponse {
            kind: InteractionResponseKind::ApplicationCommandAutocompleteResult,
            data: None,
        },
        InteractionResponse {
            kind: InteractionResponseKind::Modal,
            data: Some(InteractionResponseData { content: Some("form".to_string()), flags: None }),
        },
    ];
    for original in samples {
        let rendered = render_response(&original);
        let parsed = parse_response(&rendered).expect("rendered text must parse");
        assert_eq!(parsed, original);
    }
}

#[test]
fn parser_rejects_what_the_renderer_never_writes() {
    assert!(parse_response("").is_none());
    assert!(parse_response("{}").is_none());
    assert!(parse_response("{\"type\":2}").is_none());
    assert!(parse_response("{\"type\":10}").is_none());
    assert!(parse_response("{\"type\":1} ").is_none());
    assert!(parse_response("{\"type\":01}").is_none());
    assert!(parse_response("{\"type\":4,\"data\":{\"content\":\"a\nb\"}}").is_none());
}

#[test]
fn decimal_rendering_matches_std() {
    assert_eq!(usize_to_dec(0), "0");
    assert_eq!(usize_to_dec(12345), 12345usize.to_string());
    assert_eq!(u64_to_dec(18446744073709551615), u64::MAX.to_string());
}

#[test]
fn percent_encoding_matches_reference() {
    for sample in ["", "abc123", "hello world!", "crème brûlée / 100%", "a+b=c&d"] {
        assert_eq!(
            percent_encode(sample),
            utf8_percent_encode(sample, NON_ALPHANUMERIC).to_string(),
        );
    }
}
