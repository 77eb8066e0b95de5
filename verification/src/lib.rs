//! Building blocks for serverless Discord interaction endpoints: verified
//! signature checking and dispatch for inbound webhook requests, and a
//! verified request builder for outbound calls to the Discord HTTP API.
use vstd::prelude::*;

pub mod text;
pub mod rest;
pub mod interaction;
pub mod json;

use crate::rest::AuthPrefix;
use crate::rest::REST;

verus! {

/// A hosting runtime that can be handed an interaction handler.
pub trait Service {
    fn register_handler<H: crate::interaction::InteractionHandler>(handler: H);
}

/// Construction-time configuration of a REST client.
pub struct RESTConfig<'a> {
    pub api: &'a str,
    pub version: &'a str,
    pub token: Option<&'a str>,
    pub auth_prefix: AuthPrefix,
}

impl<'a> RESTConfig<'a> {
    /// The default configuration around a bot token: the public API base,
    /// version 10, and the bot auth scheme.
    pub fn new(token: &'a str) -> (r: Self)
        ensures
            r.api@ == "https://discord.com/api"@,
            r.version@ == "10"@,
            r.token matches Some(t) && t@ == token@,
            r.auth_prefix == AuthPrefix::Bot,
    {
        RESTConfig {
            api: "https://discord.com/api",
            version: "10",
            token: Some(token),
            auth_prefix: AuthPrefix::Bot,
        }
    }
}

/// Builds a REST client from a configuration.
pub fn rest_client<'a>(config: RESTConfig<'a>) -> (r: REST)
    ensures
        r.api@ == config.api@,
        r.version@ == config.version@,
        r.token is Some <==> config.token is Some,
        config.token matches Some(t0) ==> (r.token matches Some(t) && t@ == t0@),
        r.auth_prefix == config.auth_prefix,
{
    let RESTConfig { api, version, token, auth_prefix } = config;
    REST::new(api, version, token, auth_prefix)
}

} // verus!
