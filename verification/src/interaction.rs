//! The inbound interaction pipeline: Ed25519 signature checking over the
//! timestamp and body, the liveness-ping short circuit, and dispatch to a
//! consumer-supplied handler.
use vstd::prelude::*;
use vstd::utf8::encode_utf8;
use vstd::string::StringSliceAdditionalSpecFns;
use vstd::string::StrSliceExecFns;
use vstd::string::StringExecFns;
use crate::text;
use twilight_model::application::interaction::InteractionType;

verus! {

/// The discriminant of an inbound interaction payload.
#[derive(Clone, Copy, PartialEq, Eq, Structural, Debug)]
pub enum InteractionKind {
    Ping,
    ApplicationCommand,
    MessageComponent,
    ApplicationCommandAutocomplete,
    ModalSubmit,
}

/// An inbound interaction: its discriminant, and the raw JSON text it was
/// decoded from, for the handler to interpret further.
pub struct Interaction {
    pub kind: InteractionKind,
    pub raw: String,
}

/// The discriminant of an interaction response.
#[derive(Clone, Copy, PartialEq, Eq, Structural, Debug)]
pub enum InteractionResponseKind {
    Pong,
    ChannelMessageWithSource,
    DeferredChannelMessageWithSource,
    DeferredUpdateMessage,
    UpdateMessage,
    ApplicationCommandAutocompleteResult,
    Modal,
}

/// Optional payload of an interaction response.
#[derive(Debug, PartialEq, Eq)]
pub struct InteractionResponseData {
    pub content: Option<String>,
    pub flags: Option<u64>,
}

/// Spec-level image of a response payload.
#[verifier::ext_equal]
pub struct ResponseDataView {
    pub content: Option<Seq<char>>,
    pub flags: Option<u64>,
}

impl View for InteractionResponseData {
    type V = ResponseDataView;

    open spec fn view(&self) -> ResponseDataView {
        ResponseDataView {
            content: match self.content {
                Some(c) => Some(c@),
                None => None,
            },
            flags: self.flags,
        }
    }
}

/// A response to an interaction, produced either by the processor (pong) or
/// by the handler.
#[derive(Debug, PartialEq, Eq)]
pub struct InteractionResponse {
    pub kind: InteractionResponseKind,
    pub data: Option<InteractionResponseData>,
}

/// Spec-level image of a response.
#[verifier::ext_equal]
pub struct ResponseView {
    pub kind: InteractionResponseKind,
    pub data: Option<ResponseDataView>,
}

impl View for InteractionResponse {
    type V = ResponseView;

    open spec fn view(&self) -> ResponseView {
        ResponseView {
            kind: self.kind,
            data: match self.data {
                Some(d) => Some(d@),
                None => None,
            },
        }
    }
}

/// The capability a consumer implements: produce a response for one
/// interaction, or fail with an application-level message.
pub trait InteractionHandler: Sized {
    fn on_interaction(&mut self, interaction: Interaction) -> Result<InteractionResponse, String>;
}

/// Whether `sig` is a strictly valid Ed25519 signature of `msg` under the
/// 32-byte verifying key `vk`; a byte string that encodes no valid key
/// verifies nothing.
pub uninterp spec fn ed25519_strict_valid(vk: Seq<u8>, msg: Seq<u8>, sig: Seq<u8>) -> bool;

/// Relies on `ed25519_dalek::VerifyingKey::{from_bytes, verify_strict}`:
/// strict verification, rejecting malleable signatures, determined by the
/// key, message and signature bytes alone.
#[verifier::external_body]
fn ed25519_verify_strict(vk: &[u8; 32], msg: &Vec<u8>, sig: &Vec<u8>) -> (r: bool)
    requires
        sig@.len() == 64,
    ensures
        r == ed25519_strict_valid(vk@, msg@, sig@),
{
    let mut sig_bytes: [u8; 64] = [0u8; 64];
    sig_bytes.copy_from_slice(sig.as_slice());
    match ed25519_dalek::VerifyingKey::from_bytes(vk) {
        Ok(key) => {
            let signature = ed25519_dalek::Signature::from_bytes(&sig_bytes);
            key.verify_strict(msg.as_slice(), &signature).is_ok()
        },
        Err(_) => false,
    }
}

/// The discriminant the interaction payload `body` decodes to, or nothing
/// when `body` is not a well-formed interaction.
pub uninterp spec fn spec_interaction_kind(body: Seq<char>) -> Option<InteractionKind>;

/// Relies on `serde_json::from_str` and `twilight_model`'s `Interaction`:
/// decodes the payload and reports its discriminant, determined by the body
/// text alone.
#[verifier::external_body]
fn parse_interaction_kind(body: &str) -> (r: Option<InteractionKind>)
    ensures
        r == spec_interaction_kind(body@),
{
    let parsed: Result<twilight_model::application::interaction::Interaction, serde_json::Error> =
        serde_json::from_str(body);
    match parsed {
        Ok(interaction) => match interaction.kind {
            InteractionType::Ping => Some(InteractionKind::Ping),
            InteractionType::ApplicationCommand => Some(InteractionKind::ApplicationCommand),
            InteractionType::MessageComponent => Some(InteractionKind::MessageComponent),
            InteractionType::ApplicationCommandAutocomplete => Some(
                InteractionKind::ApplicationCommandAutocomplete,
            ),
            InteractionType::ModalSubmit => Some(InteractionKind::ModalSubmit),
            _ => None,
        },
        Err(_) => None,
    }
}

/// The message a webhook signature covers: the UTF-8 bytes of the timestamp
/// followed directly by those of the body, with no separator.
pub open spec fn spec_signed_message(timestamp: Seq<char>, body: Seq<char>) -> Seq<u8> {
    encode_utf8(timestamp) + encode_utf8(body)
}

fn signed_message(timestamp: &str, body: &str) -> (r: Vec<u8>)
    ensures
        r@ == spec_signed_message(timestamp@, body@),
{
    let mut m = timestamp.as_bytes_vec();
    let mut b = body.as_bytes_vec();
    m.append(&mut b);
    m
}

/// Whether a signature header is well formed: exactly 128 hex digits.
pub open spec fn sig_header_ok(sig_bytes: Seq<u8>) -> bool {
    sig_bytes.len() == 128 && (forall|i: int|
        0 <= i < sig_bytes.len() ==> text::is_hex_u8(sig_bytes[i]))
}

/// Whether the hex-encoded signature (given by its header bytes) strictly
/// verifies over timestamp and body under the key `vk`.
pub open spec fn spec_signature_valid(
    vk: Seq<u8>,
    timestamp: Seq<char>,
    body: Seq<char>,
    sig_bytes: Seq<u8>,
) -> bool {
    ed25519_strict_valid(
        vk,
        spec_signed_message(timestamp, body),
        text::hex_decode_bytes(sig_bytes),
    )
}

/// Why a signature check did not succeed: the header is not 128 hex digits,
/// or the decoded signature does not verify.
pub enum SignatureError {
    MalformedSignature,
    InvalidSignature,
}

/// Checks the webhook signature: decodes the hex header and strictly
/// verifies it over `timestamp || body`.
pub fn verify(vk: &[u8; 32], body: &str, timestamp: &str, sign: &str) -> (r: Result<
    (),
    SignatureError,
>)
    ensures
        r is Ok <==> (sig_header_ok(sign.spec_bytes()) && spec_signature_valid(
            vk@,
            timestamp@,
            body@,
            sign.spec_bytes(),
        )),
        r matches Err(SignatureError::MalformedSignature) <==> !sig_header_ok(
            sign.spec_bytes(),
        ),
        r matches Err(SignatureError::InvalidSignature) <==> (sig_header_ok(sign.spec_bytes())
            && !spec_signature_valid(vk@, timestamp@, body@, sign.spec_bytes())),
{
    match text::decode_hex_exact(sign, 64) {
        Some(sig) => {
            let msg = signed_message(timestamp, body);
            if ed25519_verify_strict(vk, &msg, &sig) {
                Ok(())
            } else {
                Err(SignatureError::InvalidSignature)
            }
        },
        None => Err(SignatureError::MalformedSignature),
    }
}

/// The reply owed to a liveness ping: a pong with no data.
pub fn pong_response() -> (r: InteractionResponse)
    ensures
        r@.kind == InteractionResponseKind::Pong,
        r@.data is None,
{
    InteractionResponse { kind: InteractionResponseKind::Pong, data: None }
}

/// A failure of the inbound pipeline that is not an authentication failure:
/// the request is malformed, its payload does not decode, or the handler
/// itself failed.
#[derive(Debug)]
pub enum ProcessError {
    MissingSignatureHeader,
    MissingTimestampHeader,
    InvalidSignatureHex,
    InvalidPayload,
    HandlerError(String),
}

/// The outbound HTTP reply of the processor.
pub struct HttpReply {
    pub status: u16,
    pub body: String,
}

/// The successful reply that carries a given response: status 200 with the
/// response's JSON text as its body. A runtime that invokes the handler
/// itself can use this to tie its reply exactly to the handler's result.
pub fn reply_for_response(resp: &InteractionResponse) -> (r: HttpReply)
    ensures
        r.status == 200,
        r.body@ == crate::json::spec_render_response(resp@),
{
    HttpReply { status: 200, body: crate::json::render_response(resp) }
}

/// Whether an inbound request reaches the handler: both headers present, the
/// signature well formed and strictly valid, and the payload a real
/// interaction rather than a ping.
pub open spec fn spec_dispatches(
    vk: Seq<u8>,
    sign: Option<&str>,
    timestamp: Option<&str>,
    body: &str,
) -> bool {
    &&& sign is Some
    &&& timestamp is Some
    &&& sig_header_ok(sign->0.spec_bytes())
    &&& spec_signature_valid(vk, timestamp->0@, body@, sign->0.spec_bytes())
    &&& spec_interaction_kind(body@) matches Some(k) && k != InteractionKind::Ping
}

/// Terminates one inbound webhook transaction: holds the verifying key and
/// the handler it dispatches to.
pub struct RequestProcessor<T: InteractionHandler> {
    pub vk: [u8; 32],
    pub handler: T,
}

impl<T: InteractionHandler> RequestProcessor<T> {
    pub fn new(vk: [u8; 32], handler: T) -> (r: Self)
        ensures
            r.vk == vk,
            r.handler == handler,
    {
        RequestProcessor { vk, handler }
    }

    /// Processes one inbound request, given its two signature headers and its
    /// body text. Exactly one of: a malformed request fails, an invalid
    /// signature is answered 401 without the payload being read, a ping is
    /// answered pong without the handler, and everything else goes to the
    /// handler.
    pub fn process_request(&mut self, sign: Option<&str>, timestamp: Option<&str>, body: &str) -> (r:
        Result<HttpReply, ProcessError>)
        ensures
            final(self).vk == old(self).vk,
            !spec_dispatches(old(self).vk@, sign, timestamp, body) ==> *final(self) == *old(
                self,
            ),
            sign is None ==> (r matches Err(e) && e is MissingSignatureHeader),
            (sign is Some && timestamp is None) ==> (r matches Err(e) && e
                is MissingTimestampHeader),
            (sign is Some && timestamp is Some && !sig_header_ok(sign->0.spec_bytes())) ==> (
            r matches Err(e) && e is InvalidSignatureHex),
            (sign is Some && timestamp is Some && sig_header_ok(sign->0.spec_bytes())
                && !spec_signature_valid(
                old(self).vk@,
                timestamp->0@,
                body@,
                sign->0.spec_bytes(),
            )) ==> (r matches Ok(reply) && reply.status == 401 && reply.body@
                == "invalid request signature"@),
            (sign is Some && timestamp is Some && sig_header_ok(sign->0.spec_bytes())
                && spec_signature_valid(
                old(self).vk@,
                timestamp->0@,
                body@,
                sign->0.spec_bytes(),
            ) && spec_interaction_kind(body@) is None) ==> (r matches Err(e) && e
                is InvalidPayload),
            (sign is Some && timestamp is Some && sig_header_ok(sign->0.spec_bytes())
                && spec_signature_valid(
                old(self).vk@,
                timestamp->0@,
                body@,
                sign->0.spec_bytes(),
            ) && spec_interaction_kind(body@) == Some(InteractionKind::Ping)) ==> (r matches
                Ok(reply) && reply.status == 200 && reply.body@ == crate::json::spec_render_response(
                (ResponseView { kind: InteractionResponseKind::Pong, data: None }),
            )),
            spec_dispatches(old(self).vk@, sign, timestamp, body) ==> ((r matches Err(e) && e
                is HandlerError) || (r matches Ok(reply) && reply.status == 200 && (exists|
                v: ResponseView,
            |
                reply.body@ == crate::json::spec_render_response(v)))),
    {
        let sign = match sign {
            Some(s) => s,
            None => {
                return Err(ProcessError::MissingSignatureHeader);
            },
        };
        let timestamp = match timestamp {
            Some(t) => t,
            None => {
                return Err(ProcessError::MissingTimestampHeader);
            },
        };
        match verify(&self.vk, body, timestamp, sign) {
            Ok(()) => {
                match parse_interaction_kind(body) {
                    Some(kind) => {
                        if kind == InteractionKind::Ping {
                            let resp = pong_response();
                            Ok(reply_for_response(&resp))
                        } else {
                            let interaction = Interaction { kind, raw: String::from_str(body) };
                            match self.handler.on_interaction(interaction) {
                                Ok(resp) => {
                                    Ok(reply_for_response(&resp))
                                },
                                Err(msg) => Err(ProcessError::HandlerError(msg)),
                            }
                        }
                    },
                    None => Err(ProcessError::InvalidPayload),
                }
            },
            Err(SignatureError::MalformedSignature) => Err(ProcessError::InvalidSignatureHex),
            Err(SignatureError::InvalidSignature) => Ok(
                HttpReply { status: 401, body: String::from_str("invalid request signature") },
            ),
        }
    }
}

} // verus!
