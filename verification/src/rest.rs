//! The REST request model and the request builder: a request descriptor is
//! translated deterministically into a transport-level request description
//! (URL, method, headers, body encoding), and a response status with its raw
//! bytes is interpreted as success or as a typed error.
use vstd::prelude::*;
use vstd::utf8::encode_utf8;
use crate::text;

verus! {

pub type RouteLike = String;

#[derive(Clone, Copy, PartialEq, Eq, Structural, Debug)]
pub enum RequestMethod {
    DELETE,
    GET,
    PATCH,
    POST,
    PUT,
}

#[derive(Clone, Copy, PartialEq, Eq, Structural, Debug)]
pub enum AuthPrefix {
    Bot,
    Bearer,
}

impl AuthPrefix {
    /// The textual prefix this scheme renders to in the Authorization header.
    pub open spec fn spec_str(self) -> Seq<char> {
        match self {
            AuthPrefix::Bot => "Bot"@,
            AuthPrefix::Bearer => "Bearer"@,
        }
    }

    pub fn as_str(self) -> (r: &'static str)
        ensures
            r@ == self.spec_str(),
    {
        match self {
            AuthPrefix::Bot => "Bot",
            AuthPrefix::Bearer => "Bearer",
        }
    }
}

/// One file attachment of an outbound request.
pub struct FileData {
    pub content_type: String,
    pub data: Vec<u8>,
    pub key: Option<String>,
    pub name: String,
}

/// Spec-level image of a file attachment.
pub struct FileView {
    pub content_type: Seq<char>,
    pub data: Seq<u8>,
    pub key: Option<Seq<char>>,
    pub name: Seq<char>,
}

impl View for FileData {
    type V = FileView;

    open spec fn view(&self) -> FileView {
        FileView {
            content_type: self.content_type@,
            data: self.data@,
            key: match self.key {
                Some(k) => Some(k@),
                None => None,
            },
            name: self.name@,
        }
    }
}

impl DeepView for FileData {
    type V = FileView;

    open spec fn deep_view(&self) -> FileView {
        self.view()
    }
}

/// Descriptor of one outbound API call. The body, when present, holds the
/// already-encoded JSON bytes of the payload.
pub struct RequestData {
    pub append_to_form_data: Vec<(String, String)>,
    pub auth_prefix: Option<AuthPrefix>,
    pub auth: bool,
    pub body: Option<Vec<u8>>,
    pub files: Vec<FileData>,
    pub headers: Vec<(String, String)>,
    pub query: Vec<(String, String)>,
    pub reason: Option<String>,
    pub versioned: bool,
}

impl Default for RequestData {
    /// An authorized, version-prefixed request with nothing else set.
    fn default() -> (r: Self)
        ensures
            r.auth == true,
            r.versioned == true,
            r.append_to_form_data@ == Seq::<(String, String)>::empty(),
            r.auth_prefix is None,
            r.body is None,
            r.files@ == Seq::<FileData>::empty(),
            r.headers@ == Seq::<(String, String)>::empty(),
            r.query@ == Seq::<(String, String)>::empty(),
            r.reason is None,
    {
        RequestData {
            append_to_form_data: Vec::new(),
            auth_prefix: None,
            auth: true,
            body: None,
            files: Vec::new(),
            headers: Vec::new(),
            query: Vec::new(),
            reason: None,
            versioned: true,
        }
    }
}

/// A failed call that Discord itself rejected: the raw response bytes, kept
/// verbatim for the caller to interpret.
#[derive(Debug)]
pub struct DiscordAPIError {
    pub raw: Vec<u8>,
}

/// Either the remote API rejected the call, or the call could not be made or
/// built; the two are kept apart so callers can tell them apart.
#[derive(Debug)]
pub enum RESTError {
    DiscordAPIError(DiscordAPIError),
    RequestError(String),
}

impl RESTError {
    /// A short description of the error, in place of a `Display` rendering.
    pub fn describe(&self) -> (r: &'static str)
        ensures
            self is DiscordAPIError ==> r@ == "discord api error"@,
            self is RequestError ==> r@ == "request error"@,
    {
        match self {
            RESTError::DiscordAPIError(_) => "discord api error",
            RESTError::RequestError(_) => "request error",
        }
    }
}

/// One part of a multipart form body.
pub struct FormPart {
    pub name: String,
    pub filename: Option<String>,
    pub content_type: Option<String>,
    pub value: Vec<u8>,
}

/// Spec-level image of a form part.
pub struct FormPartView {
    pub name: Seq<char>,
    pub filename: Option<Seq<char>>,
    pub content_type: Option<Seq<char>>,
    pub value: Seq<u8>,
}

impl View for FormPart {
    type V = FormPartView;

    open spec fn view(&self) -> FormPartView {
        FormPartView {
            name: self.name@,
            filename: match self.filename {
                Some(f) => Some(f@),
                None => None,
            },
            content_type: match self.content_type {
                Some(c) => Some(c@),
                None => None,
            },
            value: self.value@,
        }
    }
}

impl DeepView for FormPart {
    type V = FormPartView;

    open spec fn deep_view(&self) -> FormPartView {
        self.view()
    }
}

/// How the body of a resolved request is encoded.
pub enum ResolvedBody {
    Empty,
    Json(Vec<u8>),
    Multipart(Vec<FormPart>),
}

/// A fully resolved outbound request: everything the transport needs, with
/// no rule left to apply.
pub struct ResolvedRequest {
    pub method: RequestMethod,
    pub url: String,
    pub headers: Vec<(String, String)>,
    pub body: ResolvedBody,
}

/// Interprets a response: a 2xx status returns the raw bytes as success,
/// anything else becomes an API error carrying those bytes verbatim.
pub fn interpret_response(status: u16, data: Vec<u8>) -> (r: Result<Vec<u8>, RESTError>)
    ensures
        200 <= status < 300 ==> (r matches Ok(d) && d@ == data@),
        !(200 <= status < 300) ==> (r matches Err(RESTError::DiscordAPIError(e)) && e.raw@
            == data@),
{
    if 200 <= status && status < 300 {
        Ok(data)
    } else {
        Err(RESTError::DiscordAPIError(DiscordAPIError { raw: data }))
    }
}

/// Percent-encoding of the UTF-8 form of a character sequence.
pub open spec fn pe_chars(s: Seq<char>) -> Seq<char> {
    text::percent_encode_bytes(encode_utf8(s))
}

/// Form-urlencoding of the UTF-8 form of a character sequence, as query
/// strings are serialized.
pub open spec fn fe_chars(s: Seq<char>) -> Seq<char> {
    text::form_encode_bytes(encode_utf8(s))
}

/// Key/value insertion with "last write wins": the first pair holding `k`
/// keeps its position but takes the new value; otherwise the pair is appended.
pub open spec fn upsert(
    s: Seq<(Seq<char>, Seq<char>)>,
    k: Seq<char>,
    v: Seq<char>,
) -> Seq<(Seq<char>, Seq<char>)>
    decreases s.len(),
{
    if s.len() == 0 {
        seq![(k, v)]
    } else if s[0].0 == k {
        seq![(k, v)] + s.drop_first()
    } else {
        seq![s[0]] + upsert(s.drop_first(), k, v)
    }
}

/// Folds `upsert` over `q`, front first, starting from `base`.
pub open spec fn apply_pairs(
    base: Seq<(Seq<char>, Seq<char>)>,
    q: Seq<(Seq<char>, Seq<char>)>,
) -> Seq<(Seq<char>, Seq<char>)>
    decreases q.len(),
{
    if q.len() == 0 {
        base
    } else {
        apply_pairs(upsert(base, q[0].0, q[0].1), q.drop_first())
    }
}

/// One rendered query pair, key and value form-urlencoded.
pub open spec fn spec_pair_qs(p: (Seq<char>, Seq<char>)) -> Seq<char> {
    fe_chars(p.0) + "="@ + fe_chars(p.1)
}

/// The query pairs after the first, each preceded by `&`.
pub open spec fn spec_query_rest(q: Seq<(Seq<char>, Seq<char>)>) -> Seq<char>
    decreases q.len(),
{
    if q.len() == 0 {
        Seq::empty()
    } else {
        "&"@ + spec_pair_qs(q[0]) + spec_query_rest(q.drop_first())
    }
}

/// The full query string, empty or beginning with `?`.
pub open spec fn spec_query_string(q: Seq<(Seq<char>, Seq<char>)>) -> Seq<char> {
    if q.len() == 0 {
        Seq::empty()
    } else {
        "?"@ + spec_pair_qs(q[0]) + spec_query_rest(q.drop_first())
    }
}

/// The URL before the query string: the API base, the version prefix when
/// the request is versioned, and the route.
pub open spec fn spec_base_url(
    api: Seq<char>,
    version: Seq<char>,
    versioned: bool,
    route: Seq<char>,
) -> Seq<char> {
    if versioned {
        api + "/v"@ + version + route
    } else {
        api + route
    }
}

/// The target URL: base plus the query string of the deduplicated query.
pub open spec fn spec_url(
    api: Seq<char>,
    version: Seq<char>,
    versioned: bool,
    route: Seq<char>,
    q: Seq<(Seq<char>, Seq<char>)>,
) -> Seq<char> {
    spec_base_url(api, version, versioned, route) + spec_query_string(
        apply_pairs(Seq::empty(), q),
    )
}

pub open spec fn spec_auth_header(prefix: AuthPrefix, token: Seq<char>) -> (Seq<char>, Seq<
    char,
>) {
    ("Authorization"@, prefix.spec_str() + " "@ + token)
}

/// The headers the builder generates itself, in generation order.
pub open spec fn spec_scheme_headers(
    auth_header: Option<(Seq<char>, Seq<char>)>,
    has_json_body: bool,
    reason: Option<Seq<char>>,
) -> Seq<(Seq<char>, Seq<char>)> {
    (match auth_header {
        Some(h) => seq![h],
        None => Seq::empty(),
    }) + (if has_json_body {
        seq![("Content-Type"@, "application/json"@)]
    } else {
        Seq::empty()
    }) + (match reason {
        Some(r) => seq![("X-Audit-Log-Reason"@, pe_chars(r))],
        None => Seq::empty(),
    })
}

/// All headers of a resolved request: the scheme-generated ones, then each
/// caller-supplied header applied in order, last write winning.
pub open spec fn spec_headers(
    auth: bool,
    prefix: AuthPrefix,
    token: Seq<char>,
    has_json_body: bool,
    reason: Option<Seq<char>>,
    extra: Seq<(Seq<char>, Seq<char>)>,
) -> Seq<(Seq<char>, Seq<char>)> {
    apply_pairs(
        spec_scheme_headers(
            if auth {
                Some(spec_auth_header(prefix, token))
            } else {
                None
            },
            has_json_body,
            reason,
        ),
        extra,
    )
}

/// The form part of the file at position `i`, named by its explicit key or
/// by the positional key `files[i]`.
pub open spec fn spec_file_part(f: FileView, i: int) -> FormPartView {
    FormPartView {
        name: match f.key {
            Some(k) => k,
            None => "files["@ + text::dec_rep(i as nat) + "]"@,
        },
        filename: Some(f.name),
        content_type: Some(f.content_type),
        value: f.data,
    }
}

pub open spec fn spec_file_parts(files: Seq<FileView>) -> Seq<FormPartView> {
    Seq::new(files.len(), |i: int| spec_file_part(files[i], i))
}

/// A plain text part carrying one extra form field.
pub open spec fn spec_text_part(p: (Seq<char>, Seq<char>)) -> FormPartView {
    FormPartView { name: p.0, filename: None, content_type: None, value: encode_utf8(p.1) }
}

pub open spec fn spec_text_parts(form: Seq<(Seq<char>, Seq<char>)>) -> Seq<FormPartView> {
    Seq::new(form.len(), |i: int| spec_text_part(form[i]))
}

/// All parts of a multipart body: the files in order, then the extra form
/// fields, then the JSON payload under `payload_json` when a body is present.
pub open spec fn spec_parts(
    files: Seq<FileView>,
    form: Seq<(Seq<char>, Seq<char>)>,
    body: Option<Seq<u8>>,
) -> Seq<FormPartView> {
    spec_file_parts(files) + spec_text_parts(form) + (match body {
        Some(b) => seq![
            (FormPartView { name: "payload_json"@, filename: None, content_type: None, value: b }),
        ],
        None => Seq::empty(),
    })
}

/// Applies one caller pair to a header list, last write winning on the first
/// pair holding the same key.
fn upsert_pair(list: Vec<(String, String)>, k: String, v: String) -> (r: Vec<(String, String)>)
    ensures
        r.deep_view() == upsert(list.deep_view(), k@, v@),
    decreases list@.len(),
{
    let mut list = list;
    if list.len() == 0 {
        let mut r: Vec<(String, String)> = Vec::new();
        r.push((k, v));
        proof {
            assert(r.deep_view() =~= seq![(k@, v@)]);
            assert(upsert(list.deep_view(), k@, v@) =~= seq![(k@, v@)]);
        }
        r
    } else {
        let ghost lv = list.deep_view();
        let head = list.remove(0);
        proof {
            assert(list.deep_view() =~= lv.drop_first());
            assert((head.0@, head.1@) == lv[0]);
        }
        if head.0 == k {
            let mut r: Vec<(String, String)> = Vec::new();
            r.push((k, v));
            let mut rest = list;
            r.append(&mut rest);
            proof {
                assert(r.deep_view() =~= seq![(k@, v@)] + lv.drop_first());
            }
            r
        } else {
            let mut rest = upsert_pair(list, k, v);
            let mut r: Vec<(String, String)> = Vec::new();
            r.push(head);
            r.append(&mut rest);
            proof {
                assert(r.deep_view() =~= seq![lv[0]] + upsert(lv.drop_first(), k@, v@));
            }
            r
        }
    }
}

proof fn lemma_query_rest_push(s: Seq<(Seq<char>, Seq<char>)>, p: (Seq<char>, Seq<char>))
    ensures
        spec_query_rest(s.push(p)) == spec_query_rest(s) + ("&"@ + spec_pair_qs(p)),
    decreases s.len(),
{
    if s.len() == 0 {
        assert(s.push(p)[0] == p);
        assert(s.push(p).drop_first() =~= Seq::<(Seq<char>, Seq<char>)>::empty());
        assert(spec_query_rest(s.push(p).drop_first()) =~= Seq::<char>::empty());
        assert(spec_query_rest(s.push(p)) =~= "&"@ + spec_pair_qs(p));
        assert(spec_query_rest(s) + ("&"@ + spec_pair_qs(p)) =~= "&"@ + spec_pair_qs(p));
    } else {
        assert(s.push(p)[0] == s[0]);
        assert(s.push(p).drop_first() =~= s.drop_first().push(p));
        lemma_query_rest_push(s.drop_first(), p);
        assert(spec_query_rest(s.push(p)) =~= spec_query_rest(s) + ("&"@ + spec_pair_qs(p)));
    }
}

/// Applies the caller's pairs in order, last write winning per key; used for
/// the query mapping and for the extra headers.
fn dedup_pairs(pairs: Vec<(String, String)>) -> (r: Vec<(String, String)>)
    ensures
        r.deep_view() == apply_pairs(Seq::empty(), pairs.deep_view()),
{
    let ghost pv = pairs.deep_view();
    let mut rem = pairs;
    let mut acc: Vec<(String, String)> = Vec::new();
    proof {
        assert(acc.deep_view() =~= Seq::<(Seq<char>, Seq<char>)>::empty());
    }
    while rem.len() > 0
        invariant
            apply_pairs(Seq::empty(), pv) == apply_pairs(acc.deep_view(), rem.deep_view()),
        decreases rem@.len(),
    {
        let ghost rv = rem.deep_view();
        let p = rem.remove(0);
        proof {
            assert(rem.deep_view() =~= rv.drop_first());
            assert((p.0@, p.1@) == rv[0]);
        }
        acc = upsert_pair(acc, p.0, p.1);
    }
    proof {
        assert(rem.deep_view().len() == 0);
        assert(apply_pairs(acc.deep_view(), rem.deep_view()) == acc.deep_view());
    }
    acc
}

/// The REST client's configuration: API base, version, optional token, and
/// the default auth scheme.
pub struct REST {
    pub api: String,
    pub version: String,
    pub token: Option<String>,
    pub auth_prefix: AuthPrefix,
}

impl REST {
    pub fn new(api: &str, version: &str, token: Option<&str>, auth_prefix: AuthPrefix) -> (r:
        Self)
        ensures
            r.api@ == api@,
            r.version@ == version@,
            r.token is Some <==> token is Some,
            token matches Some(t0) ==> (r.token matches Some(t) && t@ == t0@),
            r.auth_prefix == auth_prefix,
    {
        let token_owned = match token {
            Some(t) => Some(String::from_str(t)),
            None => None,
        };
        REST { api: String::from_str(api), version: String::from_str(version), token: token_owned, auth_prefix }
    }

    /// The token's character sequence, or empty when none is configured.
    pub open spec fn spec_token(&self) -> Seq<char> {
        match self.token {
            Some(t) => t@,
            None => Seq::empty(),
        }
    }

    /// Translates a request descriptor into a resolved request. Fails exactly
    /// when the descriptor demands authorization and no token is configured,
    /// and in that case nothing has been sent or built. Whether the computed
    /// URL text is well formed is the transport's question: it parses the
    /// URL before sending and fails the request there.
    pub fn resolve_request(&self, method: RequestMethod, route: RouteLike, data: RequestData) -> (r:
        Result<ResolvedRequest, RESTError>)
        ensures
            r is Err <==> (data.auth && self.token is None),
            r matches Err(e) ==> e is RequestError,
            r matches Ok(rr) ==> rr.method == method,
            r matches Ok(rr) ==> rr.url@ == spec_url(
                self.api@,
                self.version@,
                data.versioned,
                route@,
                data.query.deep_view(),
            ),
            r matches Ok(rr) ==> rr.headers.deep_view() == spec_headers(
                data.auth,
                (match data.auth_prefix {
                    Some(p) => p,
                    None => self.auth_prefix,
                }),
                self.spec_token(),
                data.files@.len() == 0 && data.body is Some,
                (match data.reason {
                    Some(rs) => Some(rs@),
                    None => None,
                }),
                data.headers.deep_view(),
            ),
            r matches Ok(rr) ==> (data.files@.len() > 0 ==> (rr.body matches
                ResolvedBody::Multipart(parts) && parts.deep_view() == spec_parts(
                data.files.deep_view(),
                data.append_to_form_data.deep_view(),
                (match data.body {
                    Some(b) => Some(b@),
                    None => None,
                }),
            ))),
            r matches Ok(rr) ==> ((data.files@.len() == 0 && data.body is Some) ==> (rr.body
                matches ResolvedBody::Json(bytes) && bytes@ == data.body->0@)),
            r matches Ok(rr) ==> ((data.files@.len() == 0 && data.body is None) ==> rr.body is
                Empty),
    {
        let RequestData {
            append_to_form_data,
            auth_prefix,
            auth,
            body,
            files,
            headers: extra_headers,
            query,
            reason,
            versioned,
        } = data;
        // Authorization is decided before anything is built, so a missing
        // token can never reach the network.
        if auth && self.token.is_none() {
            return Err(
                RESTError::RequestError(
                    String::from_str(
                        "Expected token to be set for this request, but none was present",
                    ),
                ),
            );
        }
        let has_json_body = files.len() == 0 && body.is_some();

        // Target URL: base, version prefix, route, then the deduplicated
        // query rendered pair by pair.
        let mut url = String::new();
        url.append(self.api.as_str());
        if versioned {
            url.append("/v");
            url.append(self.version.as_str());
        }
        url.append(route.as_str());
        let ghost base_chars = url@;
        proof {
            assert(base_chars == spec_base_url(self.api@, self.version@, versioned, route@));
        }
        let deduped = dedup_pairs(query);
        let ghost dv = deduped.deep_view();
        let mut i: usize = 0;
        while i < deduped.len()
            invariant
                i <= deduped@.len(),
                dv == deduped.deep_view(),
                dv.len() == deduped@.len(),
                i == 0 ==> url@ == base_chars,
                i > 0 ==> url@ == base_chars + "?"@ + spec_pair_qs(dv[0]) + spec_query_rest(
                    dv.subrange(1, i as int),
                ),
            decreases deduped@.len() - i,
        {
            if i == 0 {
                url.append("?");
            } else {
                url.append("&");
            }
            let pk = text::form_encode(deduped[i].0.as_str());
            url.append(pk.as_str());
            url.append("=");
            let pv_ = text::form_encode(deduped[i].1.as_str());
            url.append(pv_.as_str());
            proof {
                assert(dv[i as int] == (deduped@[i as int].0@, deduped@[i as int].1@));
                assert(pk@ + "="@ + pv_@ == spec_pair_qs(dv[i as int]));
                if i > 0 {
                    assert(dv.subrange(1, i + 1) =~= dv.subrange(1, i as int).push(dv[i as int]));
                    lemma_query_rest_push(dv.subrange(1, i as int), dv[i as int]);
                }
            }
            i = i + 1;
        }
        proof {
            if dv.len() == 0 {
                assert(url@ == base_chars + spec_query_string(dv));
            } else {
                assert(dv.subrange(1, dv.len() as int) =~= dv.drop_first());
                assert(url@ == base_chars + ("?"@ + spec_pair_qs(dv[0]) + spec_query_rest(
                    dv.drop_first(),
                )));
                assert(url@ == base_chars + spec_query_string(dv));
            }
        }

        // Headers: Authorization, Content-Type for a JSON body, the
        // percent-encoded audit-log reason, then the caller's extras.
        let mut headers: Vec<(String, String)> = Vec::new();
        let ghost auth_header_g: Option<(Seq<char>, Seq<char>)> = if auth {
            Some(
                spec_auth_header(
                    (match auth_prefix {
                        Some(p) => p,
                        None => self.auth_prefix,
                    }),
                    self.spec_token(),
                ),
            )
        } else {
            None
        };
        if auth {
            match &self.token {
                Some(token) => {
                    let prefix = match auth_prefix {
                        Some(p) => p,
                        None => self.auth_prefix,
                    };
                    let mut hv = String::from_str(prefix.as_str());
                    hv.append(" ");
                    hv.append(token.as_str());
                    headers.push((String::from_str("Authorization"), hv));
                },
                None => {
                    // Unreachable: the missing-token case returned above.
                    return Err(
                        RESTError::RequestError(
                            String::from_str(
                                "Expected token to be set for this request, but none was present",
                            ),
                        ),
                    );
                },
            }
        }
        if has_json_body {
            headers.push(
                (String::from_str("Content-Type"), String::from_str("application/json")),
            );
        }
        let ghost reason_g: Option<Seq<char>> = if reason is Some {
            Some(reason->0@)
        } else {
            None
        };
        match &reason {
            Some(rs) => {
                let encoded = text::percent_encode(rs.as_str());
                headers.push((String::from_str("X-Audit-Log-Reason"), encoded));
            },
            None => {},
        }
        proof {
            assert(headers.deep_view() =~= spec_scheme_headers(
                auth_header_g,
                has_json_body,
                reason_g,
            ));
        }
        let ghost scheme_g = headers.deep_view();
        let ghost ev = extra_headers.deep_view();
        let mut rem = extra_headers;
        while rem.len() > 0
            invariant
                apply_pairs(scheme_g, ev) == apply_pairs(headers.deep_view(), rem.deep_view()),
            decreases rem@.len(),
        {
            let ghost rv = rem.deep_view();
            let p = rem.remove(0);
            proof {
                assert(rem.deep_view() =~= rv.drop_first());
                assert((p.0@, p.1@) == rv[0]);
            }
            headers = upsert_pair(headers, p.0, p.1);
        }
        proof {
            assert(rem.deep_view().len() == 0);
            assert(apply_pairs(headers.deep_view(), rem.deep_view()) == headers.deep_view());
        }

        // Body: a multipart form whenever at least one file is attached,
        // otherwise the JSON payload bytes, otherwise nothing.
        let n_files: usize = files.len();
        let n_form: usize = append_to_form_data.len();
        let ghost files_g = files.deep_view();
        let ghost form_g = append_to_form_data.deep_view();
        proof {
            assert(files_g.len() == n_files as nat);
            assert(form_g.len() == n_form as nat);
        }
        let ghost body_g: Option<Seq<u8>> = if body is Some {
            Some(body->0@)
        } else {
            None
        };
        let resolved_body: ResolvedBody;
        if files.len() == 0 {
            match body {
                Some(b) => {
                    resolved_body = ResolvedBody::Json(b);
                },
                None => {
                    resolved_body = ResolvedBody::Empty;
                },
            }
            proof {
                assert(files@.len() == 0);
            }
        } else {
            let mut parts: Vec<FormPart> = Vec::new();
            let mut fs = files;
            let mut idx: usize = 0;
            proof {
                assert(fs.deep_view() =~= files_g.skip(0));
                assert(parts.deep_view() =~= spec_file_parts(files_g).take(0));
            }
            while fs.len() > 0
                invariant
                    files_g.len() == n_files as nat,
                    idx + fs@.len() == files_g.len(),
                    fs.deep_view() =~= files_g.skip(idx as int),
                    parts.deep_view() =~= spec_file_parts(files_g).take(idx as int),
                decreases fs@.len(),
            {
                let ghost fv = fs.deep_view();
                let f = fs.remove(0);
                proof {
                    assert(fs.deep_view() =~= fv.drop_first());
                    assert(f.deep_view() == fv[0]);
                    assert(fv[0] == files_g[idx as int]);
                }
                let FileData { content_type, data: fdata, key, name } = f;
                let part_name = match key {
                    Some(k) => k,
                    None => {
                        let idx_dec = text::usize_to_dec(idx);
                        let mut n = String::from_str("files[");
                        n.append(idx_dec.as_str());
                        n.append("]");
                        n
                    },
                };
                parts.push(
                    FormPart {
                        name: part_name,
                        filename: Some(name),
                        content_type: Some(content_type),
                        value: fdata,
                    },
                );
                proof {
                    assert(idx < files_g.len());
                    assert(parts.deep_view().last() == spec_file_part(
                        files_g[idx as int],
                        idx as int,
                    ));
                    assert(spec_file_parts(files_g).take(idx + 1) =~= spec_file_parts(
                        files_g,
                    ).take(idx as int).push(spec_file_part(files_g[idx as int], idx as int)));
                    assert(parts.deep_view() =~= spec_file_parts(files_g).take(idx + 1));
                }
                idx = idx + 1;
            }
            proof {
                assert(spec_file_parts(files_g).take(files_g.len() as int) =~= spec_file_parts(
                    files_g,
                ));
            }
            let ghost file_parts_g = parts.deep_view();
            let mut form_rem = append_to_form_data;
            let mut fidx: usize = 0;
            proof {
                assert(spec_text_parts(form_g).take(0) =~= Seq::<FormPartView>::empty());
                assert(parts.deep_view() =~= file_parts_g + spec_text_parts(form_g).take(0));
            }
            while form_rem.len() > 0
                invariant
                    form_g.len() == n_form as nat,
                    fidx + form_rem@.len() == form_g.len(),
                    form_rem.deep_view() =~= form_g.skip(fidx as int),
                    parts.deep_view() =~= file_parts_g + spec_text_parts(form_g).take(
                        fidx as int,
                    ),
                decreases form_rem@.len(),
            {
                let ghost frv = form_rem.deep_view();
                let p = form_rem.remove(0);
                proof {
                    assert(form_rem.deep_view() =~= frv.drop_first());
                    assert((p.0@, p.1@) == frv[0]);
                    assert(frv[0] == form_g[fidx as int]);
                }
                let value_bytes = p.1.as_str().as_bytes_vec();
                parts.push(
                    FormPart { name: p.0, filename: None, content_type: None, value: value_bytes },
                );
                proof {
                    assert(fidx < form_g.len());
                    assert(parts.deep_view().last() == spec_text_part(form_g[fidx as int]));
                    assert(spec_text_parts(form_g).take(fidx + 1) =~= spec_text_parts(
                        form_g,
                    ).take(fidx as int).push(spec_text_part(form_g[fidx as int])));
                    assert(parts.deep_view() =~= (file_parts_g + spec_text_parts(form_g).take(
                        fidx as int,
                    )).push(spec_text_part(form_g[fidx as int])));
                    assert((file_parts_g + spec_text_parts(form_g).take(fidx as int)).push(
                        spec_text_part(form_g[fidx as int]),
                    ) =~= file_parts_g + spec_text_parts(form_g).take(fidx as int).push(
                        spec_text_part(form_g[fidx as int]),
                    ));
                    assert(parts.deep_view() =~= file_parts_g + spec_text_parts(form_g).take(
                        fidx + 1,
                    ));
                }
                fidx = fidx + 1;
            }
            proof {
                assert(spec_text_parts(form_g).take(form_g.len() as int) =~= spec_text_parts(
                    form_g,
                ));
            }
            match body {
                Some(b) => {
                    parts.push(
                        FormPart {
                            name: String::from_str("payload_json"),
                            filename: None,
                            content_type: None,
                            value: b,
                        },
                    );
                },
                None => {},
            }
            proof {
                assert(parts.deep_view() =~= spec_parts(files_g, form_g, body_g));
            }
            resolved_body = ResolvedBody::Multipart(parts);
        }
        Ok(ResolvedRequest { method, url, headers, body: resolved_body })
    }
}

} // verus!
