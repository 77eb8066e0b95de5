use discord_interactions::interaction::verify;
use discord_interactions::interaction::Interaction;
use discord_interactions::interaction::InteractionHandler;
use discord_interactions::interaction::InteractionResponse;
use discord_interactions::interaction::InteractionResponseData;
use discord_interactions::interaction::InteractionResponseKind;
use discord_interactions::interaction::ProcessError;
use discord_interactions::interaction::reply_for_response;
use discord_interactions::interaction::RequestProcessor;
use discord_interactions::interaction::SignatureError;
use discord_interactions::text::decode_hex_exact;
use ed25519_dalek::Signer;
use ed25519_dalek::SigningKey;

const PING_BODY: &str = "{\"application_id\":\"1\",\"authorizing_integration_owners\":{},\"id\":\"2\",\"token\":\"tok\",\"type\":1}";
const COMMAND_BODY: &str = "{\"application_id\":\"1\",\"authorizing_integration_owners\":{},\"id\":\"2\",\"token\":\"tok\",\"type\":2,\"data\":{\"id\":\"3\",\"name\":\"hello\",\"type\":1}}";

struct FlagHandler {
    called: bool,
    fail: bool,
}

impl InteractionHandler for FlagHandler {
    fn on_interaction(&mut self, interaction: Interaction) -> Result<InteractionResponse, String> {
        self.called = true;
        if self.fail {
            return Err("handler failed".to_string());
        }
        assert!(!interaction.raw.is_empty());
        Ok(InteractionResponse {
            kind: InteractionResponseKind::ChannelMessageWithSource,
            data: Some(InteractionResponseData {
                content: Some("hi".to_string()),
                flags: None,
            }),
        })
    }
}

fn keypair() -> (SigningKey, [u8; 32]) {
    let sk = SigningKey::from_bytes(&[7u8; 32]);
    let vk = sk.verifying_key().to_bytes();
    (sk, vk)
}

fn sign_hex(sk: &SigningKey, timestamp: &str, body: &str) -> String {
    let mut msg = timestamp.as_bytes().to_vec();
    msg.extend_from_slice(body.as_bytes());
    hex::encode(sk.sign(&msg).to_bytes())
}

fn processor(vk: [u8; 32], fail: bool) -> RequestProcessor<FlagHandler> {
    RequestProcessor::new(vk, FlagHandler { called: false, fail })
}

#[test]
fn valid_tuple_verifies() {
    let (sk, vk) = keypair();
    let ts = "1700000000";
    let body = PING_BODY;
    let sig = sign_hex(&sk, ts, body);
    assert!(verify(&vk, body, ts, &sig).is_ok());
}

#[test]
fn mutated_body_fails_verification() {
    let (sk, vk) = keypair();
    let ts = "1700000000";
    let sig = sign_hex(&sk, ts, PING_BODY);
    let mutated = PING_BODY.replace("\"id\":\"2\"", "\"id\":\"3\"");
    assert!(matches!(
        verify(&vk, &mutated, ts, &sig),
        Err(SignatureError::InvalidSignature)
    ));
}

#[test]
fn mutated_timestamp_fails_verification() {
    let (sk, vk) = keypair();
    let sig = sign_hex(&sk, "1700000000", PING_BODY);
    assert!(matches!(
        verify(&vk, PING_BODY, "1700000001", &sig),
        Err(SignatureError::InvalidSignature)
    ));
}

#[test]
fn mutated_signature_fails_verification() {
    let (sk, vk) = keypair();
    let ts = "1700000000";
    let mut sig = sign_hex(&sk, ts, PING_BODY);
    let first = sig.remove(0);
    let flipped = if first == '0' { '1' } else { '0' };
    sig.insert(0, flipped);
    assert!(matches!(
        verify(&vk, PING_BODY, ts, &sig),
        Err(SignatureError::InvalidSignature)
    ));
}

#[test]
fn non_hex_signature_is_malformed_not_invalid() {
    let (_, vk) = keypair();
    let sig = "zz".repeat(64);
    assert!(matches!(
        verify(&vk, PING_BODY, "1700000000", &sig),
        Err(SignatureError::MalformedSignature)
    ));
    let short = "ab".repeat(10);
    assert!(matches!(
        verify(&vk, PING_BODY, "1700000000", &short),
        Err(SignatureError::MalformedSignature)
    ));
}

#[test]
fn ping_answers_pong_without_invoking_handler() {
    let (sk, vk) = keypair();
    let ts = "1700000000";
    let sig = sign_hex(&sk, ts, PING_BODY);
    let mut p = processor(vk, false);
    let reply = p.process_request(Some(&sig), Some(ts), PING_BODY).unwrap();
    assert_eq!(reply.status, 200);
    assert_eq!(reply.body, "{\"type\":1}");
    assert!(!p.handler.called);
}

#[test]
fn command_is_dispatched_to_handler() {
    let (sk, vk) = keypair();
    let ts = "1700000000";
    let sig = sign_hex(&sk, ts, COMMAND_BODY);
    let mut p = processor(vk, false);
    let reply = p.process_request(Some(&sig), Some(ts), COMMAND_BODY).unwrap();
    assert_eq!(reply.status, 200);
    assert_eq!(reply.body, "{\"type\":4,\"data\":{\"content\":\"hi\"}}");
    assert!(p.handler.called);
}

#[test]
fn handler_failure_propagates() {
    let (sk, vk) = keypair();
    let ts = "1700000000";
    let sig = sign_hex(&sk, ts, COMMAND_BODY);
    let mut p = processor(vk, true);
    match p.process_request(Some(&sig), Some(ts), COMMAND_BODY) {
        Err(ProcessError::HandlerError(msg)) => assert_eq!(msg, "handler failed"),
        _ => panic!("expected the handler error to propagate"),
    }
}

#[test]
fn invalid_signature_yields_401_and_skips_parsing() {
    let (sk, vk) = keypair();
    let ts = "1700000000";
    // Signed over a different body; the delivered body is not even JSON, so
    // reaching the parser would fail loudly rather than reply.
    let sig = sign_hex(&sk, ts, PING_BODY);
    let body = "this is not json";
    let mut p = processor(vk, false);
    let reply = p.process_request(Some(&sig), Some(ts), body).unwrap();
    assert_eq!(reply.status, 401);
    assert_eq!(reply.body, "invalid request signature");
    assert!(!p.handler.called);
}

#[test]
fn missing_headers_are_fatal_not_401() {
    let (_, vk) = keypair();
    let mut p = processor(vk, false);
    assert!(matches!(
        p.process_request(None, Some("1"), PING_BODY),
        Err(ProcessError::MissingSignatureHeader)
    ));
    assert!(matches!(
        p.process_request(Some("ab"), None, PING_BODY),
        Err(ProcessError::MissingTimestampHeader)
    ));
}

#[test]
fn bad_hex_header_is_fatal_not_401() {
    let (_, vk) = keypair();
    let mut p = processor(vk, false);
    let sig = "zz".repeat(64);
    assert!(matches!(
        p.process_request(Some(&sig), Some("1"), PING_BODY),
        Err(ProcessError::InvalidSignatureHex)
    ));
}

#[test]
fn undecodable_payload_with_valid_signature_is_fatal() {
    let (sk, vk) = keypair();
    let ts = "1700000000";
    let body = "{}";
    let sig = sign_hex(&sk, ts, body);
    let mut p = processor(vk, false);
    assert!(matches!(
        p.process_request(Some(&sig), Some(ts), body),
        Err(ProcessError::InvalidPayload)
    ));
}

#[test]
fn reply_carries_the_exact_response_text() {
    let resp = InteractionResponse {
        kind: InteractionResponseKind::UpdateMessage,
        data: Some(InteractionResponseData { content: Some("done".to_string()), flags: Some(64) }),
    };
    let reply = reply_for_response(&resp);
    assert_eq!(reply.status, 200);
    assert_eq!(reply.body, "{\"type\":7,\"data\":{\"content\":\"done\",\"flags\":64}}");
}

#[test]
fn hex_decoding_matches_reference() {
    let sample = "00ff10Ab";
    let ours = decode_hex_exact(sample, 4).unwrap();
    assert_eq!(ours, hex::decode(sample).unwrap());
    assert_eq!(ours, vec![0x00, 0xff, 0x10, 0xab]);
    assert!(decode_hex_exact("0g", 1).is_none());
    assert!(decode_hex_exact("00", 2).is_none());
}
