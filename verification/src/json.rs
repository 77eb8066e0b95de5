//! JSON rendering of interaction responses: the body of a successful
//! processor reply is computed here, character by character, against a
//! direct spec-level definition of the wire format.
use vstd::prelude::*;
use vstd::string::StrSliceExecFns;
use vstd::string::StringExecFns;
use crate::text;
use crate::interaction::InteractionResponse;
use crate::interaction::InteractionResponseData;
use crate::interaction::InteractionResponseKind;
use crate::interaction::ResponseDataView;
use crate::interaction::ResponseView;

verus! {

/// The wire code of a response discriminant.
pub open spec fn kind_code(k: InteractionResponseKind) -> nat {
    match k {
        InteractionResponseKind::Pong => 1,
        InteractionResponseKind::ChannelMessageWithSource => 4,
        InteractionResponseKind::DeferredChannelMessageWithSource => 5,
        InteractionResponseKind::DeferredUpdateMessage => 6,
        InteractionResponseKind::UpdateMessage => 7,
        InteractionResponseKind::ApplicationCommandAutocompleteResult => 8,
        InteractionResponseKind::Modal => 9,
    }
}

pub fn kind_code_u64(k: InteractionResponseKind) -> (r: u64)
    ensures
        r as nat == kind_code(k),
{
    match k {
        InteractionResponseKind::Pong => 1,
        InteractionResponseKind::ChannelMessageWithSource => 4,
        InteractionResponseKind::DeferredChannelMessageWithSource => 5,
        InteractionResponseKind::DeferredUpdateMessage => 6,
        InteractionResponseKind::UpdateMessage => 7,
        InteractionResponseKind::ApplicationCommandAutocompleteResult => 8,
        InteractionResponseKind::Modal => 9,
    }
}

/// JSON escaping of one character: quote and backslash get a backslash,
/// control characters become `\u00XX`, everything else stands for itself.
pub open spec fn json_escape_char(c: char) -> Seq<char> {
    if c == '"' {
        seq!['\\', '"']
    } else if c == '\\' {
        seq!['\\', '\\']
    } else if (c as u32) < 32 {
        seq!['\\', 'u', '0', '0'] + seq![
            text::hex_upper_digit((c as u32 / 16) as nat),
            text::hex_upper_digit((c as u32 % 16) as nat),
        ]
    } else {
        seq![c]
    }
}

/// JSON escaping of a character sequence.
pub open spec fn json_escape(s: Seq<char>) -> Seq<char>
    decreases s.len(),
{
    if s.len() == 0 {
        Seq::empty()
    } else {
        json_escape_char(s[0]) + json_escape(s.drop_first())
    }
}

proof fn lemma_json_escape_push(s: Seq<char>, c: char)
    ensures
        json_escape(s.push(c)) == json_escape(s) + json_escape_char(c),
    decreases s.len(),
{
    if s.len() == 0 {
        assert(s.push(c)[0] == c);
        assert(s.push(c).drop_first() =~= Seq::<char>::empty());
        assert(json_escape(s.push(c).drop_first()) =~= Seq::<char>::empty());
        assert(json_escape(s.push(c)) =~= json_escape_char(c) + Seq::<char>::empty());
        assert(json_escape_char(c) + Seq::<char>::empty() =~= json_escape_char(c));
        assert(json_escape(s) + json_escape_char(c) =~= json_escape_char(c));
    } else {
        assert(s.push(c)[0] == s[0]);
        assert(s.push(c).drop_first() =~= s.drop_first().push(c));
        lemma_json_escape_push(s.drop_first(), c);
        assert(json_escape(s.push(c)) =~= json_escape(s) + json_escape_char(c));
    }
}

/// A character the escaping leaves as it stands.
pub open spec fn is_plain_char(c: char) -> bool {
    c != '"' && c != '\\' && c as u32 >= 32
}

proof fn lemma_escape_char_shape(c: char)
    ensures
        json_escape_char(c).len() >= 1,
        json_escape_char(c)[0] != '"',
        is_plain_char(c) ==> json_escape_char(c) == seq![c],
        !is_plain_char(c) ==> json_escape_char(c)[0] == '\\',
{
}

proof fn lemma_escape_first_char(s: Seq<char>, t: Seq<char>)
    requires
        s.len() > 0,
    ensures
        (json_escape(s) + t).len() > 0,
        (json_escape(s) + t)[0] == json_escape_char(s[0])[0],
{
    lemma_escape_char_shape(s[0]);
    assert(json_escape(s)[0] == json_escape_char(s[0])[0]);
}

/// Cancels two equal concatenations on their equal-length prefixes.
proof fn lemma_cancel(p: Seq<char>, x: Seq<char>, q: Seq<char>, y: Seq<char>)
    requires
        p + x == q + y,
        p.len() == q.len(),
    ensures
        p == q,
        x == y,
{
    assert(p =~= (p + x).subrange(0, p.len() as int));
    assert(q =~= (q + y).subrange(0, q.len() as int));
    assert(x =~= (p + x).subrange(p.len() as int, (p + x).len() as int));
    assert(y =~= (q + y).subrange(q.len() as int, (q + y).len() as int));
}

/// Two escape images that open the same text describe the same character.
proof fn lemma_escape_char_head_inj(ca: char, cb: char, x: Seq<char>, y: Seq<char>)
    requires
        json_escape_char(ca) + x == json_escape_char(cb) + y,
    ensures
        ca == cb,
        x == y,
{
    let ea = json_escape_char(ca);
    let eb = json_escape_char(cb);
    let whole = ea + x;
    lemma_escape_char_shape(ca);
    lemma_escape_char_shape(cb);
    assert(whole[0] == ea[0]);
    assert(whole[0] == eb[0]);
    if is_plain_char(ca) && is_plain_char(cb) {
        assert(ca == cb);
    } else if is_plain_char(ca) {
        assert(ea[0] == ca && ca != '\\');
        assert(eb[0] == '\\');
        assert(false);
    } else if is_plain_char(cb) {
        assert(eb[0] == cb && cb != '\\');
        assert(ea[0] == '\\');
        assert(false);
    } else {
        assert(ea.len() >= 2 && eb.len() >= 2);
        assert(whole[1] == ea[1]);
        assert(whole[1] == eb[1]);
        if ca == '"' || ca == '\\' {
            assert(cb == ca);
        } else {
            assert(ea[1] == 'u');
            assert(eb[1] == 'u');
            assert(cb != '"' && cb != '\\');
            assert(ea.len() == 6 && eb.len() == 6);
            assert(whole[4] == ea[4] && whole[5] == ea[5]);
            assert(whole[4] == eb[4] && whole[5] == eb[5]);
            let ua = ca as u32;
            let ub = cb as u32;
            assert(ua < 32 && ub < 32);
            assert(text::hex_upper_digit((ua / 16) as nat) == text::hex_upper_digit(
                (ub / 16) as nat,
            ));
            assert(text::hex_upper_digit((ua % 16) as nat) == text::hex_upper_digit(
                (ub % 16) as nat,
            ));
            assert(ua / 16 == ub / 16);
            assert(ua % 16 == ub % 16);
            assert(ua == ub);
            vstd::utf8::char_u32_cast(ca, ua);
            vstd::utf8::char_u32_cast(cb, ub);
            assert(ca == cb);
        }
    }
    assert(ea =~= eb);
    lemma_cancel(ea, x, eb, y);
}

/// Aligns an escape image against a longer one ending in a bare quote: the
/// shorter text is a prefix, and the remainder of the tape is the escape
/// image of the rest.
proof fn lemma_escape_align(o: Seq<char>, c0: Seq<char>, u: Seq<char>, t: Seq<char>)
    requires
        json_escape(o) + u == json_escape(c0) + t,
        t.len() > 0,
        t[0] == '"',
    ensures
        o.len() <= c0.len(),
        o == c0.take(o.len() as int),
        u == json_escape(c0.skip(o.len() as int)) + t,
    decreases o.len(),
{
    if o.len() == 0 {
        assert(json_escape(o) =~= Seq::<char>::empty());
        assert(json_escape(o) + u =~= u);
        assert(o =~= c0.take(0));
        assert(c0.skip(0) =~= c0);
    } else if c0.len() == 0 {
        assert(json_escape(c0) =~= Seq::<char>::empty());
        assert(json_escape(c0) + t =~= t);
        lemma_escape_first_char(o, u);
        lemma_escape_char_shape(o[0]);
        assert(t[0] == (json_escape(o) + u)[0]);
        assert(false);
    } else {
        let co = o[0];
        let cc = c0[0];
        let resto = json_escape(o.drop_first()) + u;
        let restc = json_escape(c0.drop_first()) + t;
        assert(json_escape(o) + u =~= json_escape_char(co) + resto);
        assert(json_escape(c0) + t =~= json_escape_char(cc) + restc);
        lemma_escape_char_head_inj(co, cc, resto, restc);
        lemma_escape_align(o.drop_first(), c0.drop_first(), u, t);
        assert(o =~= seq![co] + o.drop_first());
        assert(c0.take(o.len() as int) =~= seq![cc] + c0.drop_first().take(o.len() - 1));
        assert(o =~= c0.take(o.len() as int));
        assert(c0.skip(o.len() as int) =~= c0.drop_first().skip(o.len() - 1));
    }
}

/// An escaped text followed by a bare quote can be read back in exactly one
/// way: the quote never occurs in an escape image except directly after a
/// backslash.
proof fn lemma_escape_boundary(sa: Seq<char>, sb: Seq<char>, ta: Seq<char>, tb: Seq<char>)
    requires
        json_escape(sa) + ta == json_escape(sb) + tb,
        ta.len() > 0,
        tb.len() > 0,
        ta[0] == '"',
        tb[0] == '"',
    ensures
        sa == sb,
        ta == tb,
{
    lemma_escape_align(sa, sb, ta, tb);
    let rest = sb.skip(sa.len() as int);
    if rest.len() > 0 {
        lemma_escape_first_char(rest, tb);
        lemma_escape_char_shape(rest[0]);
        assert(ta[0] == (json_escape(rest) + tb)[0]);
        assert(false);
    }
    assert(json_escape(rest) =~= Seq::<char>::empty());
    assert(json_escape(rest) + tb =~= tb);
    assert(sb.take(sa.len() as int) =~= sb);
}

/// Uppercase hex digits, as the escaping writes them.
pub open spec fn is_ux_digit(c: char) -> bool {
    (48 <= c as u32 && c as u32 <= 57) || (65 <= c as u32 && c as u32 <= 70)
}

pub open spec fn ux_val(c: char) -> nat
    recommends
        is_ux_digit(c),
{
    if 48 <= c as u32 && c as u32 <= 57 {
        (c as u32 - 48) as nat
    } else {
        (c as u32 - 55) as nat
    }
}

proof fn lemma_hex_upper_digit_inv(d: nat)
    requires
        d < 16,
    ensures
        is_ux_digit(text::hex_upper_digit(d)),
        ux_val(text::hex_upper_digit(d)) == d,
{
}

proof fn lemma_ux_digit_inv(c: char)
    requires
        is_ux_digit(c),
    ensures
        ux_val(c) < 16,
        text::hex_upper_digit(ux_val(c)) == c,
{
    assert(c as u32 == text::hex_upper_digit(ux_val(c)) as u32);
    vstd::utf8::char_u32_cast(c, c as u32);
    vstd::utf8::char_u32_cast(text::hex_upper_digit(ux_val(c)), c as u32);
}

fn ux_char_val(c: char) -> (r: Option<u8>)
    ensures
        r is Some <==> is_ux_digit(c),
        r matches Some(v) ==> (v < 16 && v as nat == ux_val(c)),
{
    let u = c as u32;
    if 48 <= u && u <= 57 {
        Some((u - 48) as u8)
    } else if 65 <= u && u <= 70 {
        Some((u - 55) as u8)
    } else {
        None
    }
}

/// Appends the JSON escaping of `s` to `out`.
fn append_escaped(out: &mut String, s: &str)
    ensures
        final(out)@ == old(out)@ + json_escape(s@),
{
    let n = s.unicode_len();
    let mut i: usize = 0;
    while i < n
        invariant
            n == s@.len(),
            i <= n,
            out@ == old(out)@ + json_escape(s@.take(i as int)),
        decreases n - i,
    {
        let c = s.get_char(i);
        if c == '"' {
            text::push_char(out, '\\');
            text::push_char(out, '"');
        } else if c == '\\' {
            text::push_char(out, '\\');
            text::push_char(out, '\\');
        } else if (c as u32) < 32 {
            text::push_char(out, '\\');
            text::push_char(out, 'u');
            text::push_char(out, '0');
            text::push_char(out, '0');
            let code = c as u32;
            let hi = (code / 16) as u8;
            let lo = (code % 16) as u8;
            text::push_char(out, text::hex_upper_char(hi));
            text::push_char(out, text::hex_upper_char(lo));
        } else {
            text::push_char(out, c);
        }
        proof {
            assert(s@.take(i + 1) =~= s@.take(i as int).push(s@[i as int]));
            lemma_json_escape_push(s@.take(i as int), s@[i as int]);
        }
        i = i + 1;
    }
    proof {
        assert(s@.take(s@.len() as int) =~= s@);
    }
}

/// What follows a rendered content field: the flags field, or nothing.
pub open spec fn spec_flags_tail(flags: Option<u64>) -> Seq<char> {
    match flags {
        Some(f) => ",\"flags\":"@ + text::dec_rep(f as nat),
        None => Seq::empty(),
    }
}

/// The text between the braces of a rendered payload, fields in `content`,
/// `flags` order, absent fields left out.
pub open spec fn spec_inner(d: ResponseDataView) -> Seq<char> {
    match d.content {
        Some(c) => "\"content\":\""@ + json_escape(c) + "\""@ + spec_flags_tail(d.flags),
        None => (match d.flags {
            Some(f) => "\"flags\":"@ + text::dec_rep(f as nat),
            None => Seq::empty(),
        }),
    }
}

/// The JSON object text of a response payload.
pub open spec fn spec_render_data(d: ResponseDataView) -> Seq<char> {
    "{"@ + spec_inner(d) + "}"@
}

/// What follows the type code of a rendered response: the data object, or
/// nothing.
pub open spec fn spec_data_tail(data: Option<ResponseDataView>) -> Seq<char> {
    match data {
        Some(d) => ",\"data\":"@ + spec_render_data(d),
        None => Seq::empty(),
    }
}

/// The JSON object text of a response: its wire code under `type`, and its
/// payload under `data` when present.
pub open spec fn spec_render_response(v: ResponseView) -> Seq<char> {
    "{\"type\":"@ + text::dec_rep(kind_code(v.kind)) + spec_data_tail(v.data) + "}"@
}

/// Renders a response as its JSON text.
pub fn render_response(r: &InteractionResponse) -> (s: String)
    ensures
        s@ == spec_render_response(r@),
{
    let mut out = String::from_str("{\"type\":");
    let code = text::u64_to_dec(kind_code_u64(r.kind));
    out.append(code.as_str());
    match &r.data {
        Some(d) => {
            out.append(",\"data\":");
            out.append("{");
            match &d.content {
                Some(c) => {
                    out.append("\"content\":\"");
                    append_escaped(&mut out, c.as_str());
                    out.append("\"");
                    match &d.flags {
                        Some(f) => {
                            out.append(",\"flags\":");
                            let fd = text::u64_to_dec(*f);
                            out.append(fd.as_str());
                        },
                        None => {},
                    }
                },
                None => {
                    match &d.flags {
                        Some(f) => {
                            out.append("\"flags\":");
                            let fd = text::u64_to_dec(*f);
                            out.append(fd.as_str());
                        },
                        None => {},
                    }
                },
            }
            out.append("}");
        },
        None => {},
    }
    out.append("}");
    proof {
        assert(out@ =~= spec_render_response(r@));
    }
    out
}

#[verifier::rlimit(80)]
proof fn lemma_render_data_injective(da: ResponseDataView, db: ResponseDataView)
    requires
        spec_render_data(da) == spec_render_data(db),
    ensures
        da == db,
{
    reveal_strlit("{");
    reveal_strlit("}");
    reveal_strlit("\"content\":\"");
    reveal_strlit("\"flags\":");
    reveal_strlit(",\"flags\":");
    reveal_strlit("\"");
    let brace = "{"@;
    let close = "}"@;
    let inner_a = spec_inner(da);
    let inner_b = spec_inner(db);
    assert(spec_render_data(da) =~= brace + (inner_a + close));
    assert(spec_render_data(db) =~= brace + (inner_b + close));
    lemma_cancel(brace, inner_a + close, brace, inner_b + close);
    lemma_cancel(inner_a, close, inner_b, close);
    match (da.content, db.content) {
        (Option::None, Option::None) => {
            match (da.flags, db.flags) {
                (Option::None, Option::None) => {
                    assert(da =~= db);
                },
                (Option::Some(fa), Option::Some(fb)) => {
                    let flit = "\"flags\":"@;
                    assert(inner_a =~= flit + text::dec_rep(fa as nat));
                    assert(inner_b =~= flit + text::dec_rep(fb as nat));
                    lemma_cancel(flit, text::dec_rep(fa as nat), flit, text::dec_rep(fb as nat));
                    text::lemma_dec_rep_inj(fa as nat, fb as nat);
                    assert(da =~= db);
                },
                (Option::None, Option::Some(fb)) => {
                    assert(inner_a.len() == 0);
                    text::lemma_dec_rep_digits(fb as nat);
                    assert(inner_b.len() >= 9);
                    assert(false);
                },
                (Option::Some(fa), Option::None) => {
                    assert(inner_b.len() == 0);
                    text::lemma_dec_rep_digits(fa as nat);
                    assert(inner_a.len() >= 9);
                    assert(false);
                },
            }
        },
        (Option::Some(ca), Option::None) => {
            let clit = "\"content\":\""@;
            assert(inner_a =~= clit + (json_escape(ca) + ("\""@ + spec_flags_tail(da.flags))));
            assert(inner_a[1] == clit[1]);
            assert(clit[1] == 'c');
            match db.flags {
                Option::Some(fb) => {
                    assert(inner_b =~= "\"flags\":"@ + text::dec_rep(fb as nat));
                    assert(inner_b[1] == "\"flags\":"@[1]);
                    assert("\"flags\":"@[1] == 'f');
                    assert(false);
                },
                Option::None => {
                    assert(inner_b.len() == 0);
                    assert(inner_a.len() >= 12);
                    assert(false);
                },
            }
        },
        (Option::None, Option::Some(cb)) => {
            let clit = "\"content\":\""@;
            assert(inner_b =~= clit + (json_escape(cb) + ("\""@ + spec_flags_tail(db.flags))));
            assert(inner_b[1] == clit[1]);
            assert(clit[1] == 'c');
            match da.flags {
                Option::Some(fa) => {
                    assert(inner_a =~= "\"flags\":"@ + text::dec_rep(fa as nat));
                    assert(inner_a[1] == "\"flags\":"@[1]);
                    assert("\"flags\":"@[1] == 'f');
                    assert(false);
                },
                Option::None => {
                    assert(inner_a.len() == 0);
                    assert(inner_b.len() >= 12);
                    assert(false);
                },
            }
        },
        (Option::Some(ca), Option::Some(cb)) => {
            let clit = "\"content\":\""@;
            let quote = "\""@;
            let ta = quote + spec_flags_tail(da.flags);
            let tb = quote + spec_flags_tail(db.flags);
            assert(inner_a =~= clit + (json_escape(ca) + ta));
            assert(inner_b =~= clit + (json_escape(cb) + tb));
            lemma_cancel(clit, json_escape(ca) + ta, clit, json_escape(cb) + tb);
            assert(ta[0] == '"');
            assert(tb[0] == '"');
            lemma_escape_boundary(ca, cb, ta, tb);
            lemma_cancel(quote, spec_flags_tail(da.flags), quote, spec_flags_tail(db.flags));
            match (da.flags, db.flags) {
                (Option::None, Option::None) => {
                    assert(da =~= db);
                },
                (Option::Some(fa), Option::Some(fb)) => {
                    let flit = ",\"flags\":"@;
                    lemma_cancel(
                        flit,
                        text::dec_rep(fa as nat),
                        flit,
                        text::dec_rep(fb as nat),
                    );
                    text::lemma_dec_rep_inj(fa as nat, fb as nat);
                    assert(da =~= db);
                },
                (Option::None, Option::Some(fb)) => {
                    assert(spec_flags_tail(da.flags).len() == 0);
                    text::lemma_dec_rep_digits(fb as nat);
                    assert(spec_flags_tail(db.flags).len() >= 10);
                    assert(false);
                },
                (Option::Some(fa), Option::None) => {
                    assert(spec_flags_tail(db.flags).len() == 0);
                    text::lemma_dec_rep_digits(fa as nat);
                    assert(spec_flags_tail(da.flags).len() >= 10);
                    assert(false);
                },
            }
        },
    }
}

/// Law: the rendering of a response determines the response. With
/// `parse_response`'s contract this is the round trip: a response that is
/// rendered and parsed back is recovered exactly, field for field.
pub proof fn lemma_render_response_injective(a: ResponseView, b: ResponseView)
    requires
        spec_render_response(a) == spec_render_response(b),
    ensures
        a == b,
{
    reveal_strlit("{\"type\":");
    reveal_strlit(",\"data\":");
    reveal_strlit("{");
    reveal_strlit("}");
    let prefix = "{\"type\":"@;
    let close = "}"@;
    let resta = spec_data_tail(a.data) + close;
    let restb = spec_data_tail(b.data) + close;
    assert(spec_render_response(a) =~= prefix + (text::dec_rep(kind_code(a.kind)) + resta));
    assert(spec_render_response(b) =~= prefix + (text::dec_rep(kind_code(b.kind)) + restb));
    lemma_cancel(
        prefix,
        text::dec_rep(kind_code(a.kind)) + resta,
        prefix,
        text::dec_rep(kind_code(b.kind)) + restb,
    );
    assert(close[0] == '}');
    assert(resta.len() > 0 && restb.len() > 0);
    assert(resta[0] == '}' || resta[0] == ',') by {
        match a.data {
            Option::Some(d) => {
                assert(resta[0] == ",\"data\":"@[0]);
            },
            Option::None => {
                assert(resta =~= close);
            },
        }
    }
    assert(restb[0] == '}' || restb[0] == ',') by {
        match b.data {
            Option::Some(d) => {
                assert(restb[0] == ",\"data\":"@[0]);
            },
            Option::None => {
                assert(restb =~= close);
            },
        }
    }
    assert(!text::is_digit_char(resta[0]));
    assert(!text::is_digit_char(restb[0]));
    text::lemma_dec_boundary(kind_code(a.kind), kind_code(b.kind), resta, restb);
    assert(a.kind == b.kind);
    match (a.data, b.data) {
        (Option::None, Option::None) => {
            assert(a =~= b);
        },
        (Option::Some(da), Option::Some(db)) => {
            let dlit = ",\"data\":"@;
            assert(resta =~= dlit + (spec_render_data(da) + close));
            assert(restb =~= dlit + (spec_render_data(db) + close));
            lemma_cancel(dlit, spec_render_data(da) + close, dlit, spec_render_data(db) + close);
            lemma_cancel(spec_render_data(da), close, spec_render_data(db), close);
            lemma_render_data_injective(da, db);
            assert(a =~= b);
        },
        (Option::None, Option::Some(db)) => {
            assert(resta.len() == 1);
            assert(restb.len() >= 11);
            assert(false);
        },
        (Option::Some(da), Option::None) => {
            assert(restb.len() == 1);
            assert(resta.len() >= 11);
            assert(false);
        },
    }
}

fn lit_at(s: &str, n: usize, i: usize, lit: &str) -> (r: Option<usize>)
    requires
        n == s@.len(),
        i <= n,
    ensures
        r matches Some(j) ==> (j == i + lit@.len() && i + lit@.len() <= n && s@.subrange(
            i as int,
            j as int,
        ) == lit@),
        r is None ==> !(i + lit@.len() <= n && s@.subrange(i as int, i + lit@.len()) == lit@),
{
    let m = lit.unicode_len();
    if n - i < m {
        return None;
    }
    let mut k: usize = 0;
    while k < m
        invariant
            n == s@.len(),
            m == lit@.len(),
            i + m <= n,
            k <= m,
            forall|k2: int| 0 <= k2 < k ==> s@[i + k2] == lit@[k2],
        decreases m - k,
    {
        if s.get_char(i + k) != lit.get_char(k) {
            proof {
                assert(s@.subrange(i as int, i + m) != lit@) by {
                    if s@.subrange(i as int, i + m) == lit@ {
                        assert(s@.subrange(i as int, i + m)[k as int] == s@[i + k]);
                    }
                }
            }
            return None;
        }
        k = k + 1;
    }
    proof {
        assert(s@.subrange(i as int, i + m) =~= lit@);
    }
    Some(i + m)
}

fn scan_u64(s: &str, n: usize, i: usize) -> (r: Option<(u64, usize)>)
    requires
        n == s@.len(),
        i <= n,
    ensures
        r matches Some(p) ==> (i < p.1 <= n && p.1 == text::digit_run_end(s@, i as int)
            && p.0 as nat == text::dec_val(s@.subrange(i as int, p.1 as int))),
        r is None ==> (i >= n || !text::is_digit_char(s@[i as int]) || text::dec_val(
            s@.subrange(i as int, text::digit_run_end(s@, i as int)),
        ) > u64::MAX),
{
    let mut j = i;
    let mut acc: u64 = 0;
    let mut any = false;
    let mut stop = false;
    proof {
        assert(s@.subrange(i as int, i as int) =~= Seq::<char>::empty());
    }
    while !stop && j < n
        invariant
            n == s@.len(),
            i <= j <= n,
            any <==> j > i,
            stop ==> (j >= n || !text::is_digit_char(s@[j as int])),
            forall|k: int| i <= k < j ==> text::is_digit_char(s@[k]),
            text::digit_run_end(s@, i as int) == text::digit_run_end(s@, j as int),
            acc as nat == text::dec_val(s@.subrange(i as int, j as int)),
        decreases n - j, 1int - (if stop { 1int } else { 0int }),
    {
        let c = s.get_char(j);
        let u = c as u32;
        if 48 <= u && u <= 57 {
            let d = (u - 48) as u64;
            proof {
                assert(text::is_digit_char(s@[j as int]));
                assert(s@.subrange(i as int, j + 1).drop_last() =~= s@.subrange(
                    i as int,
                    j as int,
                ));
                assert(s@.subrange(i as int, j + 1).last() == s@[j as int]);
                assert(text::digit_val(s@[j as int]) == d as nat);
            }
            if acc > (18446744073709551615u64 - d) / 10 {
                proof {
                    let q = (u64::MAX - d) as int / 10;
                    assert((u64::MAX - d) as int == 10 * q + (u64::MAX - d) as int % 10);
                    assert(acc as int * 10 + d as int > u64::MAX);
                    assert(text::dec_val(s@.subrange(i as int, j + 1)) > u64::MAX);
                    text::lemma_digit_run_digits(s@, i as int);
                    let e = text::digit_run_end(s@, i as int);
                    assert(text::digit_run_end(s@, j as int) == text::digit_run_end(
                        s@,
                        j + 1,
                    ));
                    text::lemma_digit_run_digits(s@, j + 1);
                    assert(j + 1 <= e);
                    text::lemma_dec_val_mono(s@, i as int, j + 1, e);
                }
                return None;
            }
            proof {
                let q = (u64::MAX - d) as int / 10;
                assert((u64::MAX - d) as int == 10 * q + (u64::MAX - d) as int % 10);
                assert(acc as int * 10 + d as int <= u64::MAX);
            }
            acc = acc * 10 + d;
            any = true;
            j = j + 1;
        } else {
            stop = true;
        }
    }
    proof {
        assert(j >= n || !text::is_digit_char(s@[j as int]));
        assert(text::digit_run_end(s@, j as int) == j as int);
    }
    if any {
        Some((acc, j))
    } else {
        None
    }
}

fn hex_char_val(c: char) -> (r: Option<u8>) {
    let u = c as u32;
    if 48 <= u && u <= 57 {
        Some((u - 48) as u8)
    } else if 97 <= u && u <= 102 {
        Some((u - 87) as u8)
    } else if 65 <= u && u <= 70 {
        Some((u - 55) as u8)
    } else {
        None
    }
}

fn scan_content(s: &str, n: usize, i: usize) -> (r: Option<(String, usize)>)
    requires
        n == s@.len(),
        i <= n,
    ensures
        r matches Some(p) ==> (i <= p.1 < n && s@.subrange(i as int, p.1 as int) == json_escape(
            p.0@,
        ) && s@[p.1 as int] == '"'),
        forall|c0: Seq<char>, t: Seq<char>|
            (s@.subrange(i as int, n as int) == json_escape(c0) + t && t.len() > 0 && t[0] == '"')
                ==> (r is Some && (r->0).0@ == c0 && (r->0).1 == i + json_escape(c0).len()),
{
    let mut j = i;
    let mut out = String::new();
    proof {
        assert(s@.subrange(i as int, i as int) =~= Seq::<char>::empty());
        assert(json_escape(out@) =~= Seq::<char>::empty());
    }
    while j < n
        invariant
            n == s@.len(),
            i <= j <= n,
            s@.subrange(i as int, j as int) == json_escape(out@),
        decreases n - j,
    {
        let c = s.get_char(j);
        if c == '"' {
            proof {
                assert forall|c0: Seq<char>, t: Seq<char>|
                    (s@.subrange(i as int, n as int) == json_escape(c0) + t && t.len() > 0 && t[0]
                        == '"') implies (out@ == c0 && j == i + json_escape(c0).len()) by {
                    let u = s@.subrange(j as int, n as int);
                    assert(s@.subrange(i as int, n as int) =~= s@.subrange(i as int, j as int) + u);
                    assert(u[0] == s@[j as int]);
                    lemma_escape_boundary(out@, c0, u, t);
                    assert(json_escape(out@).len() == j - i);
                }
            }
            return Some((out, j));
        } else if c == '\\' {
            if n - j < 2 {
                proof {
                    assert forall|c0: Seq<char>, t: Seq<char>|
                        !(s@.subrange(i as int, n as int) == json_escape(c0) + t && t.len() > 0
                            && t[0] == '"') by {
                        if s@.subrange(i as int, n as int) == json_escape(c0) + t && t.len() > 0
                            && t[0] == '"' {
                            let u = s@.subrange(j as int, n as int);
                            assert(s@.subrange(i as int, n as int) =~= s@.subrange(
                                i as int,
                                j as int,
                            ) + u);
                            assert(u[0] == s@[j as int]);
                            lemma_escape_align(out@, c0, u, t);
                            let rest = c0.skip(out@.len() as int);
                            if rest.len() == 0 {
                                assert(json_escape(rest) =~= Seq::<char>::empty());
                                assert(u =~= t);
                            } else {
                                lemma_escape_first_char(rest, t);
                                lemma_escape_char_shape(rest[0]);
                                assert(json_escape(rest) =~= json_escape_char(rest[0])
                                    + json_escape(rest.drop_first()));
                                assert(!is_plain_char(rest[0]));
                                assert(json_escape_char(rest[0]).len() >= 2);
                                assert(u.len() >= 3);
                            }
                            assert(false);
                        }
                    }
                }
                return None;
            }
            let e = s.get_char(j + 1);
            if e == '"' || e == '\\' {
                let ghost prev = out@;
                if e == '"' {
                    text::push_char(&mut out, '"');
                } else {
                    text::push_char(&mut out, '\\');
                }
                proof {
                    assert(out@ =~= prev.push(e));
                    lemma_json_escape_push(prev, e);
                    assert(s@.subrange(j as int, j + 2) =~= seq![s@[j as int], s@[j + 1]]);
                    assert(json_escape_char(e) =~= seq!['\\', e]);
                    assert(s@.subrange(i as int, j + 2) =~= s@.subrange(i as int, j as int)
                        + s@.subrange(j as int, j + 2));
                    assert(s@.subrange(i as int, j + 2) == json_escape(out@));
                }
                j = j + 2;
            } else if e == 'u' {
                if n - j < 6 {
                    proof {
                        assert forall|c0: Seq<char>, t: Seq<char>|
                            !(s@.subrange(i as int, n as int) == json_escape(c0) + t && t.len() > 0
                                && t[0] == '"') by {
                            if s@.subrange(i as int, n as int) == json_escape(c0) + t && t.len() > 0
                                && t[0] == '"' {
                                let u = s@.subrange(j as int, n as int);
                                assert(s@.subrange(i as int, n as int) =~= s@.subrange(
                                    i as int,
                                    j as int,
                                ) + u);
                                assert(u[0] == s@[j as int]);
                                assert(u[1] == s@[j + 1]);
                                lemma_escape_align(out@, c0, u, t);
                                let rest = c0.skip(out@.len() as int);
                                if rest.len() == 0 {
                                    assert(json_escape(rest) =~= Seq::<char>::empty());
                                    assert(u =~= t);
                                } else {
                                    lemma_escape_first_char(rest, t);
                                    lemma_escape_char_shape(rest[0]);
                                    assert(json_escape(rest) =~= json_escape_char(rest[0])
                                        + json_escape(rest.drop_first()));
                                    assert(!is_plain_char(rest[0]));
                                    if rest[0] == '"' || rest[0] == '\\' {
                                        assert(u[1] == json_escape_char(rest[0])[1]);
                                    } else {
                                        assert(json_escape_char(rest[0]).len() == 6);
                                        assert(u.len() >= 7);
                                    }
                                }
                                assert(false);
                            }
                        }
                    }
                    return None;
                }
                let z2 = s.get_char(j + 2);
                let z3 = s.get_char(j + 3);
                let h1o = ux_char_val(s.get_char(j + 4));
                let h2o = ux_char_val(s.get_char(j + 5));
                let mut fail = z2 != '0' || z3 != '0' || h1o.is_none() || h2o.is_none();
                let mut v: u8 = 0;
                if !fail {
                    let h1 = match h1o {
                        Some(h) => h,
                        None => 0,
                    };
                    let h2 = match h2o {
                        Some(h) => h,
                        None => 0,
                    };
                    v = h1 * 16 + h2;
                    if v >= 32 {
                        fail = true;
                    }
                }
                if fail {
                    proof {
                        assert forall|c0: Seq<char>, t: Seq<char>|
                            !(s@.subrange(i as int, n as int) == json_escape(c0) + t && t.len() > 0
                                && t[0] == '"') by {
                            if s@.subrange(i as int, n as int) == json_escape(c0) + t && t.len() > 0
                                && t[0] == '"' {
                                let u = s@.subrange(j as int, n as int);
                                assert(s@.subrange(i as int, n as int) =~= s@.subrange(
                                    i as int,
                                    j as int,
                                ) + u);
                                assert(u[0] == s@[j as int]);
                                assert(u[1] == s@[j + 1]);
                                lemma_escape_align(out@, c0, u, t);
                                let rest = c0.skip(out@.len() as int);
                                if rest.len() == 0 {
                                    assert(json_escape(rest) =~= Seq::<char>::empty());
                                    assert(u =~= t);
                                    assert(false);
                                } else {
                                    lemma_escape_first_char(rest, t);
                                    lemma_escape_char_shape(rest[0]);
                                    let ch = json_escape_char(rest[0]);
                                    assert(json_escape(rest) =~= ch + json_escape(
                                        rest.drop_first(),
                                    ));
                                    assert(!is_plain_char(rest[0]));
                                    if rest[0] == '"' || rest[0] == '\\' {
                                        assert(u[1] == ch[1]);
                                        assert(false);
                                    } else {
                                        let w = rest[0] as u32;
                                        assert(w < 32);
                                        assert(ch =~= seq!['\\', 'u', '0', '0'] + seq![
                                            text::hex_upper_digit((w / 16) as nat),
                                            text::hex_upper_digit((w % 16) as nat),
                                        ]);
                                        assert(u[2] == ch[2] && u[3] == ch[3]);
                                        assert(u[4] == ch[4] && u[5] == ch[5]);
                                        assert(u[2] == s@[j + 2] && u[3] == s@[j + 3]);
                                        assert(u[4] == s@[j + 4] && u[5] == s@[j + 5]);
                                        lemma_hex_upper_digit_inv((w / 16) as nat);
                                        lemma_hex_upper_digit_inv((w % 16) as nat);
                                        assert(is_ux_digit(s@[j + 4]));
                                        assert(is_ux_digit(s@[j + 5]));
                                        assert(ux_val(s@[j + 4]) == w / 16);
                                        assert(ux_val(s@[j + 5]) == w % 16);
                                        assert((w / 16) * 16 + w % 16 == w);
                                        assert(false);
                                    }
                                }
                            }
                        }
                    }
                    return None;
                }
                let ghost prev = out@;
                let vc = v as char;
                text::push_char(&mut out, vc);
                proof {
                    assert(vc as u32 == v as u32);
                    assert(vc != '"' && vc != '\\');
                    let h1v = ux_val(s@[j + 4]);
                    let h2v = ux_val(s@[j + 5]);
                    lemma_ux_digit_inv(s@[j + 4]);
                    lemma_ux_digit_inv(s@[j + 5]);
                    assert(v as nat == h1v * 16 + h2v);
                    assert((h1v * 16 + h2v) / 16 == h1v as int) by (nonlinear_arith)
                        requires h2v < 16;
                    assert((h1v * 16 + h2v) % 16 == h2v as int) by (nonlinear_arith)
                        requires h2v < 16;
                    assert(text::hex_upper_digit((vc as u32 / 16) as nat) == s@[j + 4]);
                    assert(text::hex_upper_digit((vc as u32 % 16) as nat) == s@[j + 5]);
                    assert(json_escape_char(vc) =~= seq!['\\', 'u', '0', '0'] + seq![
                        s@[j + 4],
                        s@[j + 5],
                    ]);
                    assert(s@.subrange(j as int, j + 6) =~= seq!['\\', 'u', '0', '0'] + seq![
                        s@[j + 4],
                        s@[j + 5],
                    ]);
                    assert(out@ =~= prev.push(vc));
                    lemma_json_escape_push(prev, vc);
                    assert(s@.subrange(i as int, j + 6) =~= s@.subrange(i as int, j as int)
                        + s@.subrange(j as int, j + 6));
                    assert(s@.subrange(i as int, j + 6) == json_escape(out@));
                }
                j = j + 6;
            } else {
                proof {
                    assert forall|c0: Seq<char>, t: Seq<char>|
                        !(s@.subrange(i as int, n as int) == json_escape(c0) + t && t.len() > 0
                            && t[0] == '"') by {
                        if s@.subrange(i as int, n as int) == json_escape(c0) + t && t.len() > 0
                            && t[0] == '"' {
                            let u = s@.subrange(j as int, n as int);
                            assert(s@.subrange(i as int, n as int) =~= s@.subrange(
                                i as int,
                                j as int,
                            ) + u);
                            assert(u[0] == s@[j as int]);
                            assert(u[1] == s@[j + 1]);
                            lemma_escape_align(out@, c0, u, t);
                            let rest = c0.skip(out@.len() as int);
                            if rest.len() == 0 {
                                assert(json_escape(rest) =~= Seq::<char>::empty());
                                assert(u =~= t);
                            } else {
                                lemma_escape_first_char(rest, t);
                                lemma_escape_char_shape(rest[0]);
                                let ch = json_escape_char(rest[0]);
                                assert(json_escape(rest) =~= ch + json_escape(rest.drop_first()));
                                assert(!is_plain_char(rest[0]));
                                assert(ch.len() >= 2);
                                assert(u[1] == ch[1]);
                                if rest[0] == '"' || rest[0] == '\\' {
                                } else {
                                    assert(ch[1] == 'u');
                                }
                            }
                            assert(false);
                        }
                    }
                }
                return None;
            }
        } else {
            if (c as u32) < 32 {
                proof {
                    assert forall|c0: Seq<char>, t: Seq<char>|
                        !(s@.subrange(i as int, n as int) == json_escape(c0) + t && t.len() > 0
                            && t[0] == '"') by {
                        if s@.subrange(i as int, n as int) == json_escape(c0) + t && t.len() > 0
                            && t[0] == '"' {
                            let u = s@.subrange(j as int, n as int);
                            assert(s@.subrange(i as int, n as int) =~= s@.subrange(
                                i as int,
                                j as int,
                            ) + u);
                            assert(u[0] == s@[j as int]);
                            lemma_escape_align(out@, c0, u, t);
                            let rest = c0.skip(out@.len() as int);
                            if rest.len() == 0 {
                                assert(json_escape(rest) =~= Seq::<char>::empty());
                                assert(u =~= t);
                            } else {
                                lemma_escape_first_char(rest, t);
                                lemma_escape_char_shape(rest[0]);
                                if is_plain_char(rest[0]) {
                                    assert(u[0] == rest[0]);
                                } else {
                                    assert(u[0] == '\\');
                                }
                            }
                            assert(false);
                        }
                    }
                }
                return None;
            }
            let ghost prev = out@;
            text::push_char(&mut out, c);
            proof {
                assert(out@ =~= prev.push(c));
                lemma_json_escape_push(prev, c);
                assert(is_plain_char(c));
                assert(json_escape_char(c) =~= seq![c]);
                assert(s@.subrange(j as int, j + 1) =~= seq![c]);
                assert(s@.subrange(i as int, j + 1) =~= s@.subrange(i as int, j as int)
                    + s@.subrange(j as int, j + 1));
                assert(s@.subrange(i as int, j + 1) == json_escape(out@));
            }
            j = j + 1;
        }
    }
    proof {
        assert forall|c0: Seq<char>, t: Seq<char>|
            !(s@.subrange(i as int, n as int) == json_escape(c0) + t && t.len() > 0 && t[0]
                == '"') by {
            if s@.subrange(i as int, n as int) == json_escape(c0) + t && t.len() > 0 && t[0]
                == '"' {
                let u = s@.subrange(j as int, n as int);
                assert(s@.subrange(i as int, n as int) =~= s@.subrange(i as int, j as int) + u);
                lemma_escape_align(out@, c0, u, t);
                let rest = c0.skip(out@.len() as int);
                assert(u.len() == 0);
                assert(u == json_escape(rest) + t);
                assert(false);
            }
        }
    }
    None
}

pub open spec fn opt_data_view(d: Option<InteractionResponseData>) -> Option<ResponseDataView> {
    match d {
        Some(x) => Some(x@),
        None => None,
    }
}

/// Where the flags field of a rendered data object begins, given the object's
/// content field and the position just after the opening brace.
pub open spec fn spec_flags_pos(i2: int, content: Option<Seq<char>>) -> int {
    match content {
        Some(cs) => i2 + 11 + json_escape(cs).len() + 1,
        None => i2,
    }
}

/// Splits a subrange equality at a known prefix length.
proof fn lemma_suffix(s: Seq<char>, a: int, m: int, b: int, pre: Seq<char>, post: Seq<char>)
    requires
        0 <= a <= b <= s.len(),
        s.subrange(a, b) == pre + post,
        a + pre.len() == m,
    ensures
        a <= m <= b,
        s.subrange(a, m) == pre,
        s.subrange(m, b) == post,
{
    assert(s.subrange(a, b).len() == b - a);
    assert((pre + post).len() == pre.len() + post.len());
    assert(b - a == pre.len() + post.len());
    assert forall|k: int| 0 <= k < m - a implies s.subrange(a, m)[k] == pre[k] by {
        assert(s.subrange(a, b)[k] == (pre + post)[k]);
        assert(s.subrange(a, b)[k] == s[a + k]);
        assert((pre + post)[k] == pre[k]);
        assert(s.subrange(a, m)[k] == s[a + k]);
    }
    assert(s.subrange(a, m) =~= pre);
    assert forall|k: int| 0 <= k < b - m implies s.subrange(m, b)[k] == post[k] by {
        assert(s.subrange(a, b)[k + (m - a)] == (pre + post)[k + (m - a)]);
        assert(s.subrange(a, b)[k + (m - a)] == s[a + k + (m - a)]);
        assert((pre + post)[k + (m - a)] == post[k]);
        assert(s.subrange(m, b)[k] == s[m + k]);
    }
    assert(s.subrange(m, b) =~= post);
}

/// Everything the scanner meets inside a rendered data section, laid out
/// position by position.
#[verifier::rlimit(100)]
proof fn lemma_data_shape(s: Seq<char>, i: int, n: int, dv: Option<ResponseDataView>)
    requires
        0 <= i <= n,
        n == s.len(),
        s.subrange(i, n) == spec_data_tail(dv) + "}"@,
    ensures
        dv is None ==> (n == i + 1 && s[i] == '}'),
        dv matches Some(d) ==> ({
            let i2 = i + 9;
            let q = spec_flags_pos(i2, d.content);
            &&& i2 + 2 <= n
            &&& s.subrange(i, i2) == ",\"data\":{"@
            &&& n == i2 + spec_inner(d).len() + 2
            &&& (d.content matches Some(cs) ==> (i2 + 11 <= n && s.subrange(i2, i2 + 11)
                == "\"content\":\""@ && s.subrange(i2 + 11, n) == json_escape(cs) + ("\""@ + (
            spec_flags_tail(d.flags) + ("}"@ + "}"@)))))
            &&& (d.content is None ==> (match d.flags {
                Some(f) => i2 + 2 <= n && s[i2 + 1] == 'f',
                None => s[i2] == '}',
            }))
            &&& q <= n
            &&& (match (d.content, d.flags) {
                (Some(cs), Some(f)) => q + 9 <= n && s.subrange(q, q + 9) == ",\"flags\":"@
                    && s.subrange(q + 9, n) == text::dec_rep(f as nat) + ("}"@ + "}"@),
                (Some(cs), None) => s[q] == '}' && n == q + 2,
                (None, Some(f)) => q + 8 <= n && s.subrange(q, q + 8) == "\"flags\":"@
                    && s.subrange(q + 8, n) == text::dec_rep(f as nat) + ("}"@ + "}"@),
                (None, None) => s[q] == '}' && n == q + 2,
            })
        }),
{
    reveal_strlit(",\"data\":{");
    reveal_strlit(",\"data\":");
    reveal_strlit("{");
    reveal_strlit("}");
    reveal_strlit("\"content\":\"");
    reveal_strlit("\"flags\":");
    reveal_strlit(",\"flags\":");
    reveal_strlit("\"");
    match dv {
        Option::None => {
            assert(spec_data_tail(dv) =~= Seq::<char>::empty());
            assert(s.subrange(i, n) =~= "}"@);
            assert(s[i] == s.subrange(i, n)[0]);
        },
        Option::Some(d) => {
            let i2 = i + 9;
            let inner_rest = spec_inner(d) + ("}"@ + "}"@);
            assert(spec_data_tail(dv) =~= ",\"data\":"@ + spec_render_data(d));
            assert((",\"data\":"@ + spec_render_data(d)) + "}"@ =~= ",\"data\":"@ + (
            spec_render_data(d) + "}"@));
            assert(s.subrange(i, n) == ",\"data\":"@ + (spec_render_data(d) + "}"@));
            lemma_suffix(s, i, i + 8, n, ",\"data\":"@, spec_render_data(d) + "}"@);
            assert(spec_render_data(d) + "}"@ =~= "{"@ + inner_rest);
            lemma_suffix(s, i + 8, i2, n, "{"@, inner_rest);
            assert(s.subrange(i, i2) =~= ",\"data\":{"@) by {
                assert(forall|k: int|
                    0 <= k < 8 ==> s.subrange(i, i2)[k] == #[trigger] s.subrange(i, i + 8)[k]);
                assert(s.subrange(i, i2)[8] == s.subrange(i + 8, i2)[0]);
            }
            let q = spec_flags_pos(i2, d.content);
            match d.content {
                Option::Some(cs) => {
                    let after_content = "\""@ + (spec_flags_tail(d.flags) + ("}"@ + "}"@));
                    assert(inner_rest =~= "\"content\":\""@ + (json_escape(cs) + after_content));
                    lemma_suffix(
                        s,
                        i2,
                        i2 + 11,
                        n,
                        "\"content\":\""@,
                        json_escape(cs) + after_content,
                    );
                    lemma_suffix(s, i2 + 11, q - 1, n, json_escape(cs), after_content);
                    lemma_suffix(s, q - 1, q, n, "\""@, spec_flags_tail(d.flags) + ("}"@ + "}"@));
                    match d.flags {
                        Option::Some(f) => {
                            assert(spec_flags_tail(d.flags) + ("}"@ + "}"@) =~= ",\"flags\":"@ + (
                            text::dec_rep(f as nat) + ("}"@ + "}"@)));
                            assert(s.subrange(q, n) == ",\"flags\":"@ + (text::dec_rep(f as nat) + (
                            "}"@ + "}"@)));
                            lemma_suffix(
                                s,
                                q,
                                q + 9,
                                n,
                                ",\"flags\":"@,
                                text::dec_rep(f as nat) + ("}"@ + "}"@),
                            );
                        },
                        Option::None => {
                            assert(spec_flags_tail(d.flags) + ("}"@ + "}"@) =~= "}"@ + "}"@);
                            assert(s.subrange(q, n) == "}"@ + "}"@);
                            assert(s[q] == s.subrange(q, n)[0]);
                        },
                    }
                },
                Option::None => {
                    match d.flags {
                        Option::Some(f) => {
                            assert(inner_rest =~= "\"flags\":"@ + (text::dec_rep(f as nat) + ("}"@
                                + "}"@)));
                            lemma_suffix(
                                s,
                                i2,
                                i2 + 8,
                                n,
                                "\"flags\":"@,
                                text::dec_rep(f as nat) + ("}"@ + "}"@),
                            );
                            assert(s[i2 + 1] == s.subrange(i2, i2 + 8)[1]);
                        },
                        Option::None => {
                            assert(inner_rest =~= "}"@ + "}"@);
                            assert(s.subrange(i2, n) == "}"@ + "}"@);
                            assert(s[i2] == s.subrange(i2, n)[0]);
                        },
                    }
                },
            }
        },
    }
}

/// The digit run of a rendered flags value: position, extent and value.
proof fn lemma_flags_digits(s: Seq<char>, p: int, n: int, f: u64)
    requires
        0 <= p <= n,
        n == s.len(),
        s.subrange(p, n) == text::dec_rep(f as nat) + ("}"@ + "}"@),
    ensures
        p < n,
        text::is_digit_char(s[p]),
        text::digit_run_end(s, p) == p + text::dec_rep(f as nat).len(),
        text::dec_val(s.subrange(p, p + text::dec_rep(f as nat).len())) == f as nat,
        n == p + text::dec_rep(f as nat).len() + 2,
        s[p + text::dec_rep(f as nat).len()] == '}',
{
    reveal_strlit("}");
    let dl = text::dec_rep(f as nat).len() as int;
    text::lemma_dec_rep_digits(f as nat);
    lemma_suffix(s, p, p + dl, n, text::dec_rep(f as nat), "}"@ + "}"@);
    assert forall|k: int| p <= k < p + dl implies text::is_digit_char(s[k]) by {
        assert(s.subrange(p, p + dl)[k - p] == s[k]);
        assert(text::is_digit_char(text::dec_rep(f as nat)[k - p]));
    }
    assert(s[p + dl] == s.subrange(p + dl, n)[0]);
    assert(!text::is_digit_char(s[p + dl]));
    text::lemma_digit_run_end_of(s, p, p + dl);
    text::lemma_dec_val_dec_rep(f as nat);
    assert(s[p] == s.subrange(p, p + dl)[0]);
}

/// Reads the data section (everything between the type code and the final
/// closing brace), accepting exactly what the renderer writes there.
#[verifier::rlimit(100)]
fn parse_data(s: &str, n: usize, i: usize) -> (r: Option<(Option<InteractionResponseData>, usize)>)
    requires
        n == s@.len(),
        i <= n,
    ensures
        r matches Some(p) ==> i <= p.1 <= n,
        forall|dv: Option<ResponseDataView>|
            s@.subrange(i as int, n as int) == spec_data_tail(dv) + "}"@ ==> (r is Some
                && opt_data_view((r->0).0) == dv && (r->0).1 == i + spec_data_tail(dv).len()),
{
    proof {
        reveal_strlit(",\"data\":{");
        reveal_strlit(",\"data\":");
        reveal_strlit("{");
        reveal_strlit("}");
        reveal_strlit("\"content\":\"");
        reveal_strlit("\"flags\":");
        reveal_strlit(",\"flags\":");
        reveal_strlit("\"");
    }
    let i2 = match lit_at(s, n, i, ",\"data\":{") {
        None => {
            proof {
                assert forall|dv: Option<ResponseDataView>|
                    s@.subrange(i as int, n as int) == spec_data_tail(dv) + "}"@ implies (dv
                        is None && spec_data_tail(dv).len() == 0) by {
                    lemma_data_shape(s@, i as int, n as int, dv);
                    if dv is Some {
                        assert(false);
                    }
                    assert(spec_data_tail(dv) =~= Seq::<char>::empty());
                }
            }
            return Some((None, i));
        },
        Some(v) => v,
    };
    let mut content: Option<String> = None;
    let mut jpos: usize = i2;
    let ghost mut content_v: Option<Seq<char>> = None;
    match lit_at(s, n, i2, "\"content\":\"") {
        Some(j2) => {
            match scan_content(s, n, j2) {
                Some(p) => {
                    let (cstr, j3) = p;
                    proof {
                        content_v = Some(cstr@);
                    }
                    content = Some(cstr);
                    jpos = j3 + 1;
                    proof {
                        assert forall|dv: Option<ResponseDataView>|
                            s@.subrange(i as int, n as int) == spec_data_tail(dv) + "}"@ implies (
                        dv matches Some(d) && d.content == content_v && jpos as int
                            == spec_flags_pos(i2 as int, d.content)) by {
                            lemma_data_shape(s@, i as int, n as int, dv);
                            if let Option::Some(d) = dv {
                                match d.content {
                                    Option::Some(cs) => {
                                        assert(s@.subrange(j2 as int, n as int) == json_escape(cs)
                                            + ("\""@ + (spec_flags_tail(d.flags) + ("}"@
                                            + "}"@))));
                                    },
                                    Option::None => {
                                        match d.flags {
                                            Option::Some(f) => {
                                                assert(s@.subrange(i2 as int, i2 + 11)[1]
                                                    == s@[i2 + 1]);
                                                assert(false);
                                            },
                                            Option::None => {
                                                assert(s@.subrange(i2 as int, i2 + 11)[0]
                                                    == s@[i2 as int]);
                                                assert(false);
                                            },
                                        }
                                    },
                                }
                            } else {
                                assert(false);
                            }
                        }
                    }
                },
                None => {
                    proof {
                        assert forall|dv: Option<ResponseDataView>|
                            !(s@.subrange(i as int, n as int) == spec_data_tail(dv) + "}"@) by {
                            if s@.subrange(i as int, n as int) == spec_data_tail(dv) + "}"@ {
                                lemma_data_shape(s@, i as int, n as int, dv);
                                if let Option::Some(d) = dv {
                                    match d.content {
                                        Option::Some(cs) => {
                                            assert(s@.subrange(j2 as int, n as int) == json_escape(
                                                cs,
                                            ) + ("\""@ + (spec_flags_tail(d.flags) + ("}"@
                                                + "}"@))));
                                            assert(false);
                                        },
                                        Option::None => {
                                            match d.flags {
                                                Option::Some(f) => {
                                                    assert(s@.subrange(i2 as int, i2 + 11)[1]
                                                        == s@[i2 + 1]);
                                                    assert(false);
                                                },
                                                Option::None => {
                                                    assert(s@.subrange(i2 as int, i2 + 11)[0]
                                                        == s@[i2 as int]);
                                                    assert(false);
                                                },
                                            }
                                        },
                                    }
                                } else {
                                    assert(false);
                                }
                            }
                        }
                    }
                    return None;
                },
            }
        },
        None => {
            proof {
                assert forall|dv: Option<ResponseDataView>|
                    s@.subrange(i as int, n as int) == spec_data_tail(dv) + "}"@ implies (dv
                        matches Some(d) && d.content == content_v && jpos as int == spec_flags_pos(
                        i2 as int,
                        d.content,
                    )) by {
                    lemma_data_shape(s@, i as int, n as int, dv);
                    if let Option::Some(d) = dv {
                        if let Option::Some(cs) = d.content {
                            assert(false);
                        }
                    } else {
                        assert(false);
                    }
                }
            }
        },
    }
    let mut flags: Option<u64> = None;
    let ghost mut flags_v: Option<u64> = None;
    let flit = if content.is_some() {
        lit_at(s, n, jpos, ",\"flags\":")
    } else {
        lit_at(s, n, jpos, "\"flags\":")
    };
    let fstart = jpos;
    match flit {
        Some(j4) => {
            match scan_u64(s, n, j4) {
                Some(p) => {
                    let (f, j5) = p;
                    flags = Some(f);
                    proof {
                        flags_v = Some(f);
                    }
                    jpos = j5;
                    proof {
                        assert forall|dv: Option<ResponseDataView>|
                            s@.subrange(i as int, n as int) == spec_data_tail(dv) + "}"@ implies (
                        dv matches Some(d) && d.content == content_v && d.flags == flags_v && n
                            == jpos + 2 && s@[jpos as int] == '}') by {
                            lemma_data_shape(s@, i as int, n as int, dv);
                            if let Option::Some(d) = dv {
                                match d.flags {
                                    Option::Some(df) => {
                                        lemma_flags_digits(s@, j4 as int, n as int, df);
                                    },
                                    Option::None => {
                                        assert(s@.subrange(
                                            fstart as int,
                                            fstart + (if content_v is Some {
                                                9int
                                            } else {
                                                8int
                                            }),
                                        )[0] == s@[fstart as int]);
                                        assert(false);
                                    },
                                }
                            } else {
                                assert(false);
                            }
                        }
                    }
                },
                None => {
                    proof {
                        assert forall|dv: Option<ResponseDataView>|
                            !(s@.subrange(i as int, n as int) == spec_data_tail(dv) + "}"@) by {
                            if s@.subrange(i as int, n as int) == spec_data_tail(dv) + "}"@ {
                                lemma_data_shape(s@, i as int, n as int, dv);
                                if let Option::Some(d) = dv {
                                    match d.flags {
                                        Option::Some(df) => {
                                            lemma_flags_digits(s@, j4 as int, n as int, df);
                                            assert(false);
                                        },
                                        Option::None => {
                                            assert(s@.subrange(
                                                fstart as int,
                                                fstart + (if content_v is Some {
                                                    9int
                                                } else {
                                                    8int
                                                }),
                                            )[0] == s@[fstart as int]);
                                            assert(false);
                                        },
                                    }
                                } else {
                                    assert(false);
                                }
                            }
                        }
                    }
                    return None;
                },
            }
        },
        None => {
            proof {
                assert forall|dv: Option<ResponseDataView>|
                    s@.subrange(i as int, n as int) == spec_data_tail(dv) + "}"@ implies (dv
                        matches Some(d) && d.content == content_v && d.flags == flags_v && n
                        == jpos + 2 && s@[jpos as int] == '}') by {
                    lemma_data_shape(s@, i as int, n as int, dv);
                    if let Option::Some(d) = dv {
                        if let Option::Some(df) = d.flags {
                            assert(false);
                        }
                    } else {
                        assert(false);
                    }
                }
            }
        },
    }
    match lit_at(s, n, jpos, "}") {
        Some(j6) => {
            let data = InteractionResponseData { content, flags };
            let r = Some((Some(data), j6));
            proof {
                assert forall|dv: Option<ResponseDataView>|
                    s@.subrange(i as int, n as int) == spec_data_tail(dv) + "}"@ implies (r
                        is Some && opt_data_view((r->0).0) == dv && (r->0).1 == i
                        + spec_data_tail(dv).len()) by {
                    lemma_data_shape(s@, i as int, n as int, dv);
                    if let Option::Some(d) = dv {
                        assert((r->0).0 matches Some(dd) && dd@ =~= d);
                        assert(opt_data_view((r->0).0) == dv);
                        assert(n == i + 9 + spec_inner(d).len() + 2);
                        assert(spec_data_tail(dv).len() == 8 + 1 + spec_inner(d).len() + 1);
                        assert(j6 == jpos + 1);
                    } else {
                        assert(false);
                    }
                }
            }
            r
        },
        None => {
            proof {
                assert forall|dv: Option<ResponseDataView>|
                    !(s@.subrange(i as int, n as int) == spec_data_tail(dv) + "}"@) by {
                    if s@.subrange(i as int, n as int) == spec_data_tail(dv) + "}"@ {
                        lemma_data_shape(s@, i as int, n as int, dv);
                        if let Option::Some(d) = dv {
                            assert(s@.subrange(jpos as int, jpos + 1) =~= "}"@);
                            assert(false);
                        } else {
                            assert(false);
                        }
                    }
                }
            }
            None
        },
    }
}

/// The outer layout of a rendered response: the fixed prefix, the digit run
/// of the type code, and the data tail with its closing brace.
proof fn lemma_response_shape(s: Seq<char>, v: ResponseView)
    requires
        s == spec_render_response(v),
    ensures
        s.len() >= 10,
        s.subrange(0, 8) == "{\"type\":"@,
        8 < s.len(),
        text::is_digit_char(s[8]),
        kind_code(v.kind) <= 9,
        text::digit_run_end(s, 8) == 8 + text::dec_rep(kind_code(v.kind)).len(),
        text::dec_val(s.subrange(8, 8 + text::dec_rep(kind_code(v.kind)).len() as int))
            == kind_code(v.kind),
        s.subrange(8 + text::dec_rep(kind_code(v.kind)).len() as int, s.len() as int)
            == spec_data_tail(v.data) + "}"@,
{
    reveal_strlit("{\"type\":");
    reveal_strlit(",\"data\":");
    reveal_strlit("}");
    let kc = kind_code(v.kind);
    let dl = text::dec_rep(kc).len() as int;
    text::lemma_dec_rep_digits(kc);
    assert(s =~= "{\"type\":"@ + (text::dec_rep(kc) + (spec_data_tail(v.data) + "}"@)));
    assert(s.subrange(0, 8) =~= "{\"type\":"@);
    assert(s.subrange(8, 8 + dl) =~= text::dec_rep(kc));
    assert(s.subrange(8 + dl, s.len() as int) =~= spec_data_tail(v.data) + "}"@);
    assert(forall|k: int| 8 <= k < 8 + dl ==> s[k] == text::dec_rep(kc)[k - 8]);
    assert(s[8] == text::dec_rep(kc)[0]);
    match v.data {
        Option::Some(d) => {
            assert(s[8 + dl] == (spec_data_tail(v.data) + "}"@)[0]);
            assert(s[8 + dl] == ',');
        },
        Option::None => {
            assert(spec_data_tail(v.data) =~= Seq::<char>::empty());
            assert(s[8 + dl] == (spec_data_tail(v.data) + "}"@)[0]);
            assert(s[8 + dl] == '}');
        },
    }
    assert(!text::is_digit_char(s[8 + dl]));
    text::lemma_digit_run_end_of(s, 8, 8 + dl);
    text::lemma_dec_val_dec_rep(kc);
    assert(kc <= 9);
}

/// Parses the JSON text of a response, accepting exactly the texts this
/// module renders: a parsed value renders back to the input, and every
/// rendered text parses back to the value it came from.
#[verifier::rlimit(100)]
pub fn parse_response(s: &str) -> (r: Option<InteractionResponse>)
    ensures
        r matches Some(resp) ==> s@ == spec_render_response(resp@),
        forall|v: ResponseView| s@ == spec_render_response(v) ==> (r is Some && (r->0)@ == v),
{
    proof {
        reveal_strlit("{\"type\":");
        reveal_strlit("}");
    }
    let n = s.unicode_len();
    let i0 = match lit_at(s, n, 0, "{\"type\":") {
        Some(i) => i,
        None => {
            proof {
                assert forall|v: ResponseView| !(s@ == spec_render_response(v)) by {
                    if s@ == spec_render_response(v) {
                        lemma_response_shape(s@, v);
                        assert(false);
                    }
                }
            }
            return None;
        },
    };
    let (code, i1) = match scan_u64(s, n, i0) {
        Some(p) => p,
        None => {
            proof {
                assert forall|v: ResponseView| !(s@ == spec_render_response(v)) by {
                    if s@ == spec_render_response(v) {
                        lemma_response_shape(s@, v);
                        assert(false);
                    }
                }
            }
            return None;
        },
    };
    let kind = if code == 1 {
        InteractionResponseKind::Pong
    } else if code == 4 {
        InteractionResponseKind::ChannelMessageWithSource
    } else if code == 5 {
        InteractionResponseKind::DeferredChannelMessageWithSource
    } else if code == 6 {
        InteractionResponseKind::DeferredUpdateMessage
    } else if code == 7 {
        InteractionResponseKind::UpdateMessage
    } else if code == 8 {
        InteractionResponseKind::ApplicationCommandAutocompleteResult
    } else if code == 9 {
        InteractionResponseKind::Modal
    } else {
        proof {
            assert forall|v: ResponseView| !(s@ == spec_render_response(v)) by {
                if s@ == spec_render_response(v) {
                    lemma_response_shape(s@, v);
                    assert(s@.subrange(8, 8 + text::dec_rep(kind_code(v.kind)).len() as int)
                        =~= s@.subrange(i0 as int, i1 as int));
                    assert(code as nat == kind_code(v.kind));
                    assert(false);
                }
            }
        }
        return None;
    };
    proof {
        assert(kind_code(kind) == code as nat);
    }
    let (data, i2) = match parse_data(s, n, i1) {
        Some(p) => p,
        None => {
            proof {
                assert forall|v: ResponseView| !(s@ == spec_render_response(v)) by {
                    if s@ == spec_render_response(v) {
                        lemma_response_shape(s@, v);
                        assert(s@.subrange(i1 as int, n as int) == spec_data_tail(v.data)
                            + "}"@);
                        assert(false);
                    }
                }
            }
            return None;
        },
    };
    let iend = match lit_at(s, n, i2, "}") {
        Some(p) => p,
        None => {
            proof {
                assert forall|v: ResponseView| !(s@ == spec_render_response(v)) by {
                    if s@ == spec_render_response(v) {
                        lemma_response_shape(s@, v);
                        assert(s@.subrange(i1 as int, n as int) == spec_data_tail(v.data)
                            + "}"@);
                        assert(i2 == i1 + spec_data_tail(v.data).len());
                        assert(s@.subrange(i2 as int, i2 + 1) =~= "}"@);
                        assert(false);
                    }
                }
            }
            return None;
        },
    };
    if iend != n {
        proof {
            assert forall|v: ResponseView| !(s@ == spec_render_response(v)) by {
                if s@ == spec_render_response(v) {
                    lemma_response_shape(s@, v);
                    assert(s@.subrange(i1 as int, n as int) == spec_data_tail(v.data) + "}"@);
                    assert(i2 == i1 + spec_data_tail(v.data).len());
                    assert(false);
                }
            }
        }
        return None;
    }
    let cand = InteractionResponse { kind, data };
    let rendered = render_response(&cand);
    let original = String::from_str(s);
    if rendered == original {
        proof {
            assert forall|v: ResponseView| s@ == spec_render_response(v) implies cand@ == v by {
                lemma_render_response_injective(cand@, v);
            }
        }
        Some(cand)
    } else {
        proof {
            assert forall|v: ResponseView| !(s@ == spec_render_response(v)) by {
                if s@ == spec_render_response(v) {
                    lemma_response_shape(s@, v);
                    assert(s@.subrange(8, 8 + text::dec_rep(kind_code(v.kind)).len() as int)
                        =~= s@.subrange(i0 as int, i1 as int));
                    assert(code as nat == kind_code(v.kind));
                    assert(kind == v.kind);
                    assert(s@.subrange(i1 as int, n as int) == spec_data_tail(v.data) + "}"@);
                    assert(opt_data_view(data) == v.data);
                    assert(cand@ =~= v);
                    assert(rendered@ == spec_render_response(v));
                    assert(false);
                }
            }
        }
        None
    }
}

} // verus!
