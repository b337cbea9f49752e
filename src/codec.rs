//! The envelope's wire format: one self-describing record of UTF-8 text per
//! stream, with no length prefix.
//!
//! An envelope is written as
//! `{"id":"..","timestamp":[secs,nanos],"from_server":"..","to_server":null|"..","message_type":K}`
//! where `K` is `"Ping"`, `"Pong"`, `{"Text":{"content":".."}}`,
//! `{"Hello":{"server_id":".."}}` or `{"Welcome":{"server_id":".."}}`.
//! A reader takes blanks between tokens and members in any order, passes over
//! members it does not know, and refuses a member given twice.
use vstd::prelude::*;
use vstd::utf8::{decode_utf8, encode_utf8, valid_utf8};
use crate::message::{EnvelopeView, KindView, Message, MessageType, Timestamp, NANOS_BOUND};
use crate::text::{
    blanks_end, decimal, escape, int_token, lit_null, literal_at, literal_at_exec, push_decimal,
    push_escaped, push_signed_decimal, quoted, read_int, read_string, rest_from, lemma_rest_step,
    signed_decimal, skip_blanks, skip_value, skip_value_exec, string_token, MAX_DEPTH, QUOTE,
    is_blank, is_digit, lemma_decimal_digits, lemma_int_token_decimal, lemma_string_token_quoted,
};
use vstd::utf8::{encode_utf8_decode_utf8, encode_utf8_valid_utf8, valid_utf8_concat};
use crate::text::{all_ascii, lemma_ascii_valid, lemma_escape_ascii, lemma_escape_utf8_valid};

verus! {

pub const LBRACE: u8 = 0x7b;

pub const RBRACE: u8 = 0x7d;

pub const LBRACKET: u8 = 0x5b;

pub const RBRACKET: u8 = 0x5d;

pub const COMMA: u8 = 0x2c;

pub const COLON: u8 = 0x3a;

/// The names that the format uses, for members and for kinds.
#[derive(Clone, Copy, Debug, PartialEq, Eq, Structural)]
pub enum Name {
    Id,
    Timestamp,
    FromServer,
    ToServer,
    MessageType,
    Content,
    ServerId,
    Text,
    Hello,
    Welcome,
    Ping,
    Pong,
}

/// The bytes of each name, in ASCII.
pub open spec fn name_of(n: Name) -> Seq<u8> {
    match n {
        Name::Id => seq![0x69u8, 0x64],
        Name::Timestamp => seq![0x74u8, 0x69, 0x6d, 0x65, 0x73, 0x74, 0x61, 0x6d, 0x70],
        Name::FromServer => seq![0x66u8, 0x72, 0x6f, 0x6d, 0x5f, 0x73, 0x65, 0x72, 0x76, 0x65, 0x72],
        Name::ToServer => seq![0x74u8, 0x6f, 0x5f, 0x73, 0x65, 0x72, 0x76, 0x65, 0x72],
        Name::MessageType => seq![0x6du8, 0x65, 0x73, 0x73, 0x61, 0x67, 0x65, 0x5f, 0x74, 0x79, 0x70, 0x65],
        Name::Content => seq![0x63u8, 0x6f, 0x6e, 0x74, 0x65, 0x6e, 0x74],
        Name::ServerId => seq![0x73u8, 0x65, 0x72, 0x76, 0x65, 0x72, 0x5f, 0x69, 0x64],
        Name::Text => seq![0x54u8, 0x65, 0x78, 0x74],
        Name::Hello => seq![0x48u8, 0x65, 0x6c, 0x6c, 0x6f],
        Name::Welcome => seq![0x57u8, 0x65, 0x6c, 0x63, 0x6f, 0x6d, 0x65],
        Name::Ping => seq![0x50u8, 0x69, 0x6e, 0x67],
        Name::Pong => seq![0x50u8, 0x6f, 0x6e, 0x67],
    }
}

pub fn name_bytes(n: Name) -> (r: Vec<u8>)
    ensures
        r@ == name_of(n),
{
    let v: Vec<u8> = match n {
        Name::Id => vec![0x69u8, 0x64],
        Name::Timestamp => vec![0x74u8, 0x69, 0x6d, 0x65, 0x73, 0x74, 0x61, 0x6d, 0x70],
        Name::FromServer => vec![0x66u8, 0x72, 0x6f, 0x6d, 0x5f, 0x73, 0x65, 0x72, 0x76, 0x65, 0x72],
        Name::ToServer => vec![0x74u8, 0x6f, 0x5f, 0x73, 0x65, 0x72, 0x76, 0x65, 0x72],
        Name::MessageType => vec![0x6du8, 0x65, 0x73, 0x73, 0x61, 0x67, 0x65, 0x5f, 0x74, 0x79, 0x70, 0x65],
        Name::Content => vec![0x63u8, 0x6f, 0x6e, 0x74, 0x65, 0x6e, 0x74],
        Name::ServerId => vec![0x73u8, 0x65, 0x72, 0x76, 0x65, 0x72, 0x5f, 0x69, 0x64],
        Name::Text => vec![0x54u8, 0x65, 0x78, 0x74],
        Name::Hello => vec![0x48u8, 0x65, 0x6c, 0x6c, 0x6f],
        Name::Welcome => vec![0x57u8, 0x65, 0x6c, 0x63, 0x6f, 0x6d, 0x65],
        Name::Ping => vec![0x50u8, 0x69, 0x6e, 0x67],
        Name::Pong => vec![0x50u8, 0x6f, 0x6e, 0x67],
    };
    assert(v@ =~= name_of(n));
    v
}

/// `"name":value`
pub open spec fn member(n: Name, v: Seq<u8>) -> Seq<u8> {
    quoted(name_of(n)) + seq![COLON] + v
}

/// `{m}`
pub open spec fn braced(m: Seq<u8>) -> Seq<u8> {
    seq![LBRACE] + m + seq![RBRACE]
}

/// A string of characters as a quoted token of its UTF-8 bytes.
pub open spec fn text_bytes(s: Seq<char>) -> Seq<u8> {
    quoted(encode_utf8(s))
}

/// `[secs,nanos]`
pub open spec fn timestamp_bytes(t: Timestamp) -> Seq<u8> {
    seq![LBRACKET] + signed_decimal(t.secs as int) + seq![COMMA] + decimal(t.nanos as nat) + seq![
        RBRACKET,
    ]
}

pub open spec fn target_bytes(o: Option<Seq<char>>) -> Seq<u8> {
    match o {
        None => lit_null(),
        Some(s) => text_bytes(s),
    }
}

pub open spec fn kind_bytes(k: KindView) -> Seq<u8> {
    match k {
        KindView::Text { content } => braced(
            member(Name::Text, braced(member(Name::Content, text_bytes(content)))),
        ),
        KindView::Hello { server_id } => braced(
            member(Name::Hello, braced(member(Name::ServerId, text_bytes(server_id)))),
        ),
        KindView::Welcome { server_id } => braced(
            member(Name::Welcome, braced(member(Name::ServerId, text_bytes(server_id)))),
        ),
        KindView::Ping => quoted(name_of(Name::Ping)),
        KindView::Pong => quoted(name_of(Name::Pong)),
    }
}

/// The wire form of an envelope.
pub open spec fn envelope_bytes(e: EnvelopeView) -> Seq<u8> {
    braced(
        member(Name::Id, text_bytes(e.id)) + seq![COMMA] + member(
            Name::Timestamp,
            timestamp_bytes(e.timestamp),
        ) + seq![COMMA] + member(Name::FromServer, text_bytes(e.from_server)) + seq![COMMA]
            + member(Name::ToServer, target_bytes(e.to_server)) + seq![COMMA] + member(
            Name::MessageType,
            kind_bytes(e.message_type),
        ),
    )
}

fn push_quoted(out: &mut Vec<u8>, s: &[u8])
    ensures
        final(out)@ == old(out)@ + quoted(s@),
{
    out.push(QUOTE);
    push_escaped(out, s);
    out.push(QUOTE);
    assert(out@ =~= old(out)@ + quoted(s@));
}

fn push_member_name(out: &mut Vec<u8>, n: Name)
    ensures
        final(out)@ == old(out)@ + quoted(name_of(n)) + seq![COLON],
{
    let v = name_bytes(n);
    push_quoted(out, v.as_slice());
    out.push(COLON);
    assert(out@ =~= old(out)@ + quoted(name_of(n)) + seq![COLON]);
}

fn push_text(out: &mut Vec<u8>, s: &String)
    ensures
        final(out)@ == old(out)@ + text_bytes(s@),
{
    push_quoted(out, s.as_str().as_bytes());
}

fn push_timestamp(out: &mut Vec<u8>, t: Timestamp)
    ensures
        final(out)@ == old(out)@ + timestamp_bytes(t),
{
    out.push(LBRACKET);
    push_signed_decimal(out, t.secs);
    out.push(COMMA);
    push_decimal(out, t.nanos as u64);
    out.push(RBRACKET);
    assert(out@ =~= old(out)@ + timestamp_bytes(t));
}

fn push_kind(out: &mut Vec<u8>, k: &MessageType)
    ensures
        final(out)@ == old(out)@ + kind_bytes(k@),
{
    match k {
        MessageType::Text { content } => {
            push_payload(out, Name::Text, Name::Content, content);
        },
        MessageType::Hello { server_id } => {
            push_payload(out, Name::Hello, Name::ServerId, server_id);
        },
        MessageType::Welcome { server_id } => {
            push_payload(out, Name::Welcome, Name::ServerId, server_id);
        },
        MessageType::Ping => {
            let v = name_bytes(Name::Ping);
            push_quoted(out, v.as_slice());
        },
        MessageType::Pong => {
            let v = name_bytes(Name::Pong);
            push_quoted(out, v.as_slice());
        },
    }
}

fn push_payload(out: &mut Vec<u8>, tag: Name, key: Name, s: &String)
    ensures
        final(out)@ == old(out)@ + braced(member(tag, braced(member(key, text_bytes(s@))))),
{
    out.push(LBRACE);
    push_member_name(out, tag);
    out.push(LBRACE);
    push_member_name(out, key);
    push_text(out, s);
    out.push(RBRACE);
    out.push(RBRACE);
    assert(out@ =~= old(out)@ + braced(member(tag, braced(member(key, text_bytes(s@))))));
}

fn push_target(out: &mut Vec<u8>, t: &Option<String>)
    ensures
        final(out)@ == old(out)@ + target_bytes(crate::message::opt_view(*t)),
{
    match t {
        None => {
            out.push(0x6e);
            out.push(0x75);
            out.push(0x6c);
            out.push(0x6c);
            assert(out@ =~= old(out)@ + lit_null());
        },
        Some(s) => {
            push_text(out, s);
        },
    }
}

impl Message {
    /// The wire form of this envelope. Encoding cannot fail.
    #[verifier::rlimit(60)]
    pub fn to_bytes(&self) -> (r: Vec<u8>)
        ensures
            r@ == envelope_bytes(self@),
    {
        let ghost e = self@;
        let mut out: Vec<u8> = Vec::new();
        out.push(LBRACE);
        push_member_name(&mut out, Name::Id);
        push_text(&mut out, &self.id);
        out.push(COMMA);
        let ghost p1 = out@;
        assert(p1 =~= seq![LBRACE] + member(Name::Id, text_bytes(e.id)) + seq![COMMA]);
        push_member_name(&mut out, Name::Timestamp);
        push_timestamp(&mut out, self.timestamp);
        out.push(COMMA);
        let ghost p2 = out@;
        assert(p2 =~= p1 + member(Name::Timestamp, timestamp_bytes(e.timestamp)) + seq![COMMA]);
        push_member_name(&mut out, Name::FromServer);
        push_text(&mut out, &self.from_server);
        out.push(COMMA);
        let ghost p3 = out@;
        assert(p3 =~= p2 + member(Name::FromServer, text_bytes(e.from_server)) + seq![COMMA]);
        push_member_name(&mut out, Name::ToServer);
        push_target(&mut out, &self.to_server);
        out.push(COMMA);
        let ghost p4 = out@;
        assert(p4 =~= p3 + member(Name::ToServer, target_bytes(e.to_server)) + seq![COMMA]);
        push_member_name(&mut out, Name::MessageType);
        push_kind(&mut out, &self.message_type);
        out.push(RBRACE);
        assert(out@ =~= p4 + member(Name::MessageType, kind_bytes(e.message_type)) + seq![RBRACE]);
        assert(out@ =~= envelope_bytes(self@));
        out
    }
}

/// Why bytes could not be read as an envelope.
#[derive(Clone, Copy, Debug, PartialEq, Eq, Structural)]
pub enum DecodeError {
    /// The bytes are not UTF-8 text.
    InvalidUtf8,
    /// The text is not a well-formed envelope record, or names a kind that
    /// does not exist.
    Malformed,
}

/// Relies on `std::str::from_utf8`, which accepts exactly the valid UTF-8
/// byte strings.
#[verifier::external_body]
fn is_utf8(b: &[u8]) -> (r: bool)
    ensures
        r == valid_utf8(b@),
{
    std::str::from_utf8(b).is_ok()
}

/// Relies on `String::from_utf8`: it accepts exactly the valid UTF-8 byte
/// strings, and the string it returns holds the characters they encode.
#[verifier::external_body]
pub(crate) fn string_from_utf8(v: Vec<u8>) -> (r: Option<String>)
    ensures
        r is Some <==> valid_utf8(v@),
        r matches Some(s) ==> s@ == decode_utf8(v@),
{
    String::from_utf8(v).ok()
}

/// Blanks, a colon and blanks: what separates a member's name from its value.
pub open spec fn after_colon(s: Seq<u8>) -> Option<Seq<u8>> {
    let t = skip_blanks(s);
    if t.len() > 0 && t[0] == COLON {
        Some(skip_blanks(t.drop_first()))
    } else {
        None
    }
}

/// A quoted string whose content is UTF-8 text.
pub open spec fn text_value(s: Seq<u8>) -> Option<(Seq<char>, Seq<u8>)> {
    match string_token(s) {
        Some((c, r)) => if valid_utf8(c) {
            Some((decode_utf8(c), r))
        } else {
            None
        },
        None => None,
    }
}

pub open spec fn timestamp_value(s: Seq<u8>) -> Option<(Timestamp, Seq<u8>)> {
    if !(s.len() > 0 && s[0] == LBRACKET) {
        None
    } else {
        match int_token(skip_blanks(s.drop_first())) {
            None => None,
            Some((secs, r1)) => {
                let r2 = skip_blanks(r1);
                if !(i64::MIN <= secs <= i64::MAX && r2.len() > 0 && r2[0] == COMMA) {
                    None
                } else {
                    match int_token(skip_blanks(r2.drop_first())) {
                        None => None,
                        Some((nanos, r3)) => {
                            let r4 = skip_blanks(r3);
                            if 0 <= nanos < NANOS_BOUND && r4.len() > 0 && r4[0] == RBRACKET {
                                Some(
                                    (
                                        Timestamp { secs: secs as i64, nanos: nanos as u32 },
                                        r4.drop_first(),
                                    ),
                                )
                            } else {
                                None
                            }
                        },
                    }
                }
            },
        }
    }
}

pub open spec fn target_value(s: Seq<u8>) -> Option<(Option<Seq<char>>, Seq<u8>)> {
    if literal_at(s, lit_null()) {
        Some((None, s.skip(4)))
    } else {
        match text_value(s) {
            Some((t, r)) => Some((Some(t), r)),
            None => None,
        }
    }
}

/// The members of a payload object, through its closing brace; `key` names
/// the one member that must be there, `acc` holds it once read.
pub open spec fn payload_members(s: Seq<u8>, key: Seq<u8>, acc: Option<Seq<char>>) -> Option<
    (Seq<char>, Seq<u8>),
>
    decreases s.len(),
{
    match string_token(s) {
        None => None,
        Some((k, r1)) => match after_colon(r1) {
            None => None,
            Some(r3) => {
                let v: Option<(Option<Seq<char>>, Seq<u8>)> = if k == key {
                    if acc is Some {
                        None
                    } else {
                        match text_value(r3) {
                            Some((t, r)) => Some((Some(t), r)),
                            None => None,
                        }
                    }
                } else {
                    match skip_value(r3, MAX_DEPTH as nat) {
                        Some(r) => Some((acc, r)),
                        None => None,
                    }
                };
                match v {
                    None => None,
                    Some((acc2, r4)) => {
                        let r5 = skip_blanks(r4);
                        if r5.len() > 0 && r5[0] == RBRACE {
                            match acc2 {
                                Some(t) => Some((t, r5.drop_first())),
                                None => None,
                            }
                        } else if r5.len() > 0 && r5[0] == COMMA {
                            let r6 = skip_blanks(r5.drop_first());
                            if r6.len() < s.len() {
                                payload_members(r6, key, acc2)
                            } else {
                                None
                            }
                        } else {
                            None
                        }
                    },
                }
            },
        },
    }
}

pub open spec fn payload_value(s: Seq<u8>, key: Seq<u8>) -> Option<(Seq<char>, Seq<u8>)> {
    if s.len() > 0 && s[0] == LBRACE {
        payload_members(skip_blanks(s.drop_first()), key, None)
    } else {
        None
    }
}

pub open spec fn is_payload_tag(tag: Seq<u8>) -> bool {
    tag == name_of(Name::Text) || tag == name_of(Name::Hello) || tag == name_of(Name::Welcome)
}

pub open spec fn payload_key(tag: Seq<u8>) -> Seq<u8> {
    if tag == name_of(Name::Text) {
        name_of(Name::Content)
    } else {
        name_of(Name::ServerId)
    }
}

pub open spec fn payload_kind(tag: Seq<u8>, t: Seq<char>) -> KindView {
    if tag == name_of(Name::Text) {
        KindView::Text { content: t }
    } else if tag == name_of(Name::Hello) {
        KindView::Hello { server_id: t }
    } else {
        KindView::Welcome { server_id: t }
    }
}

/// A kind: `"Ping"`, `"Pong"`, or an object of one member whose name is the
/// kind and whose value is the payload.
pub open spec fn kind_value(s: Seq<u8>) -> Option<(KindView, Seq<u8>)> {
    if s.len() > 0 && s[0] == QUOTE {
        match string_token(s) {
            Some((t, r)) => if t == name_of(Name::Ping) {
                Some((KindView::Ping, r))
            } else if t == name_of(Name::Pong) {
                Some((KindView::Pong, r))
            } else {
                None
            },
            None => None,
        }
    } else if s.len() > 0 && s[0] == LBRACE {
        match string_token(skip_blanks(s.drop_first())) {
            None => None,
            Some((tag, r1)) => match after_colon(r1) {
                None => None,
                Some(r3) => if !is_payload_tag(tag) {
                    None
                } else {
                    match payload_value(r3, payload_key(tag)) {
                        None => None,
                        Some((t, r4)) => {
                            let r5 = skip_blanks(r4);
                            if r5.len() > 0 && r5[0] == RBRACE {
                                Some((payload_kind(tag, t), r5.drop_first()))
                            } else {
                                None
                            }
                        },
                    }
                },
            },
        }
    } else {
        None
    }
}

/// The members of an envelope read so far.
pub struct Fields {
    pub id: Option<Seq<char>>,
    pub timestamp: Option<Timestamp>,
    pub from_server: Option<Seq<char>>,
    pub to_server: Option<Option<Seq<char>>>,
    pub message_type: Option<KindView>,
}

pub open spec fn no_fields() -> Fields {
    Fields { id: None, timestamp: None, from_server: None, to_server: None, message_type: None }
}

/// The value of the member named `k`, added to `acc`.
pub open spec fn field_value(k: Seq<u8>, s: Seq<u8>, acc: Fields) -> Option<(Fields, Seq<u8>)> {
    if k == name_of(Name::Id) {
        if acc.id is Some {
            None
        } else {
            match text_value(s) {
                Some((v, r)) => Some((Fields { id: Some(v), ..acc }, r)),
                None => None,
            }
        }
    } else if k == name_of(Name::Timestamp) {
        if acc.timestamp is Some {
            None
        } else {
            match timestamp_value(s) {
                Some((v, r)) => Some((Fields { timestamp: Some(v), ..acc }, r)),
                None => None,
            }
        }
    } else if k == name_of(Name::FromServer) {
        if acc.from_server is Some {
            None
        } else {
            match text_value(s) {
                Some((v, r)) => Some((Fields { from_server: Some(v), ..acc }, r)),
                None => None,
            }
        }
    } else if k == name_of(Name::ToServer) {
        if acc.to_server is Some {
            None
        } else {
            match target_value(s) {
                Some((v, r)) => Some((Fields { to_server: Some(v), ..acc }, r)),
                None => None,
            }
        }
    } else if k == name_of(Name::MessageType) {
        if acc.message_type is Some {
            None
        } else {
            match kind_value(s) {
                Some((v, r)) => Some((Fields { message_type: Some(v), ..acc }, r)),
                None => None,
            }
        }
    } else {
        match skip_value(s, MAX_DEPTH as nat) {
            Some(r) => Some((acc, r)),
            None => None,
        }
    }
}

/// The members of an envelope, through its closing brace.
pub open spec fn envelope_members(s: Seq<u8>, acc: Fields) -> Option<(Fields, Seq<u8>)>
    decreases s.len(),
{
    match string_token(s) {
        None => None,
        Some((k, r1)) => match after_colon(r1) {
            None => None,
            Some(r3) => match field_value(k, r3, acc) {
                None => None,
                Some((acc2, r4)) => {
                    let r5 = skip_blanks(r4);
                    if r5.len() > 0 && r5[0] == RBRACE {
                        Some((acc2, r5.drop_first()))
                    } else if r5.len() > 0 && r5[0] == COMMA {
                        let r6 = skip_blanks(r5.drop_first());
                        if r6.len() < s.len() {
                            envelope_members(r6, acc2)
                        } else {
                            None
                        }
                    } else {
                        None
                    }
                },
            },
        },
    }
}

/// The envelope that a record's members give, once the required ones are all there.
pub open spec fn complete(f: Fields) -> Option<EnvelopeView> {
    if f.id is Some && f.timestamp is Some && f.from_server is Some && f.message_type is Some {
        Some(
            EnvelopeView {
                id: f.id->0,
                timestamp: f.timestamp->0,
                from_server: f.from_server->0,
                to_server: match f.to_server {
                    Some(t) => t,
                    None => None,
                },
                message_type: f.message_type->0,
            },
        )
    } else {
        None
    }
}

/// The envelope that a well-formed record holds, with nothing but blanks
/// around it.
pub open spec fn record(s: Seq<u8>) -> Option<EnvelopeView> {
    let t = skip_blanks(s);
    if !(t.len() > 0 && t[0] == LBRACE) {
        None
    } else {
        match envelope_members(skip_blanks(t.drop_first()), no_fields()) {
            None => None,
            Some((f, r)) => if skip_blanks(r).len() == 0 {
                complete(f)
            } else {
                None
            },
        }
    }
}

/// What reading `b` gives: the envelope, or why there is none.
pub open spec fn decode_spec(b: Seq<u8>) -> Result<EnvelopeView, DecodeError> {
    if !valid_utf8(b) {
        Err(DecodeError::InvalidUtf8)
    } else {
        match record(b) {
            Some(e) => Ok(e),
            None => Err(DecodeError::Malformed),
        }
    }
}

fn bytes_equal(a: &Vec<u8>, b: &Vec<u8>) -> (r: bool)
    ensures
        r == (a@ == b@),
{
    if a.len() != b.len() {
        return false;
    }
    let mut k: usize = 0;
    while k < a.len()
        invariant
            a@.len() == b@.len(),
            k <= a@.len(),
            forall|m: int| 0 <= m < k ==> a@[m] == b@[m],
        decreases a@.len() - k,
    {
        if a[k] != b[k] {
            return false;
        }
        k = k + 1;
    }
    assert(a@ =~= b@);
    true
}

fn is_name(k: &Vec<u8>, n: Name) -> (r: bool)
    ensures
        r == (k@ == name_of(n)),
{
    let v = name_bytes(n);
    bytes_equal(k, &v)
}

fn after_colon_exec(b: &Vec<u8>, i: usize) -> (r: Option<usize>)
    requires
        i <= b@.len(),
    ensures
        match r {
            Some(j) => i < j <= b@.len() && after_colon(rest_from(b@, i as int)) == Some(
                rest_from(b@, j as int),
            ),
            None => after_colon(rest_from(b@, i as int)) is None,
        },
{
    let j1 = blanks_end(b, i);
    if j1 < b.len() && b[j1] == COLON {
        proof {
            lemma_rest_step(b@, j1 as int, 1);
        }
        Some(blanks_end(b, j1 + 1))
    } else {
        None
    }
}

fn text_value_exec(b: &Vec<u8>, i: usize) -> (r: Option<(String, usize)>)
    requires
        i <= b@.len(),
    ensures
        match r {
            Some((t, j)) => i < j <= b@.len() && text_value(rest_from(b@, i as int)) == Some(
                (t@, rest_from(b@, j as int)),
            ),
            None => text_value(rest_from(b@, i as int)) is None,
        },
{
    match read_string(b, i) {
        None => None,
        Some((c, j)) => {
            match string_from_utf8(c) {
                Some(t) => Some((t, j)),
                None => None,
            }
        },
    }
}

fn timestamp_value_exec(b: &Vec<u8>, i: usize) -> (r: Option<(Timestamp, usize)>)
    requires
        i <= b@.len(),
    ensures
        match r {
            Some((t, j)) => i < j <= b@.len() && timestamp_value(rest_from(b@, i as int)) == Some(
                (t, rest_from(b@, j as int)),
            ),
            None => timestamp_value(rest_from(b@, i as int)) is None,
        },
{
    if !(i < b.len() && b[i] == LBRACKET) {
        return None;
    }
    proof {
        lemma_rest_step(b@, i as int, 1);
    }
    let j1 = blanks_end(b, i + 1);
    let (secs, j2) = match read_int(b, j1, i64::MIN, i64::MAX) {
        Some(x) => x,
        None => {
            return None;
        },
    };
    let j3 = blanks_end(b, j2);
    if !(j3 < b.len() && b[j3] == COMMA) {
        return None;
    }
    proof {
        lemma_rest_step(b@, j3 as int, 1);
    }
    let j4 = blanks_end(b, j3 + 1);
    let (nanos, j5) = match read_int(b, j4, 0, (NANOS_BOUND - 1) as i64) {
        Some(x) => x,
        None => {
            return None;
        },
    };
    let j6 = blanks_end(b, j5);
    if !(j6 < b.len() && b[j6] == RBRACKET) {
        return None;
    }
    proof {
        lemma_rest_step(b@, j6 as int, 1);
    }
    Some((Timestamp { secs, nanos: nanos as u32 }, j6 + 1))
}

fn target_value_exec(b: &Vec<u8>, i: usize) -> (r: Option<(Option<String>, usize)>)
    requires
        i <= b@.len(),
    ensures
        match r {
            Some((t, j)) => i < j <= b@.len() && target_value(rest_from(b@, i as int)) == Some(
                (crate::message::opt_view(t), rest_from(b@, j as int)),
            ),
            None => target_value(rest_from(b@, i as int)) is None,
        },
{
    let ln: Vec<u8> = vec![0x6eu8, 0x75, 0x6c, 0x6c];
    assert(ln@ =~= lit_null());
    let n = b.len();
    assert(rest_from(b@, i as int).len() == n - i);
    if literal_at_exec(b, i, &ln) {
        Some((None, i + 4))
    } else {
        match text_value_exec(b, i) {
            Some((t, j)) => Some((Some(t), j)),
            None => None,
        }
    }
}

fn payload_members_exec(b: &Vec<u8>, i: usize, key: &Vec<u8>, acc: Option<String>) -> (r: Option<
    (String, usize),
>)
    requires
        i <= b@.len(),
    ensures
        match r {
            Some((t, j)) => i < j <= b@.len() && payload_members(
                rest_from(b@, i as int),
                key@,
                crate::message::opt_view(acc),
            ) == Some((t@, rest_from(b@, j as int))),
            None => payload_members(
                rest_from(b@, i as int),
                key@,
                crate::message::opt_view(acc),
            ) is None,
        },
    decreases b@.len() - i,
{
    let (k, j1) = match read_string(b, i) {
        Some(x) => x,
        None => {
            return None;
        },
    };
    let j3 = match after_colon_exec(b, j1) {
        Some(j) => j,
        None => {
            return None;
        },
    };
    let (acc2, j4) = if bytes_equal(&k, key) {
        if acc.is_some() {
            return None;
        }
        match text_value_exec(b, j3) {
            Some((t, j)) => (Some(t), j),
            None => {
                return None;
            },
        }
    } else {
        match skip_value_exec(b, j3, MAX_DEPTH) {
            Some(j) => (acc, j),
            None => {
                return None;
            },
        }
    };
    let j5 = blanks_end(b, j4);
    if j5 < b.len() && b[j5] == RBRACE {
        proof {
            lemma_rest_step(b@, j5 as int, 1);
        }
        match acc2 {
            Some(t) => Some((t, j5 + 1)),
            None => None,
        }
    } else if j5 < b.len() && b[j5] == COMMA {
        proof {
            lemma_rest_step(b@, j5 as int, 1);
        }
        let j6 = blanks_end(b, j5 + 1);
        payload_members_exec(b, j6, key, acc2)
    } else {
        None
    }
}

fn payload_value_exec(b: &Vec<u8>, i: usize, key: &Vec<u8>) -> (r: Option<(String, usize)>)
    requires
        i <= b@.len(),
    ensures
        match r {
            Some((t, j)) => i < j <= b@.len() && payload_value(rest_from(b@, i as int), key@)
                == Some((t@, rest_from(b@, j as int))),
            None => payload_value(rest_from(b@, i as int), key@) is None,
        },
{
    if i < b.len() && b[i] == LBRACE {
        proof {
            lemma_rest_step(b@, i as int, 1);
        }
        let j = blanks_end(b, i + 1);
        payload_members_exec(b, j, key, None)
    } else {
        None
    }
}

fn kind_value_exec(b: &Vec<u8>, i: usize) -> (r: Option<(MessageType, usize)>)
    requires
        i <= b@.len(),
    ensures
        match r {
            Some((k, j)) => i < j <= b@.len() && kind_value(rest_from(b@, i as int)) == Some(
                (k@, rest_from(b@, j as int)),
            ),
            None => kind_value(rest_from(b@, i as int)) is None,
        },
{
    if i < b.len() && b[i] == QUOTE {
        match read_string(b, i) {
            Some((t, j)) => if is_name(&t, Name::Ping) {
                Some((MessageType::Ping, j))
            } else if is_name(&t, Name::Pong) {
                Some((MessageType::Pong, j))
            } else {
                None
            },
            None => None,
        }
    } else if i < b.len() && b[i] == LBRACE {
        proof {
            lemma_rest_step(b@, i as int, 1);
        }
        let j0 = blanks_end(b, i + 1);
        let (tag, j1) = match read_string(b, j0) {
            Some(x) => x,
            None => {
                return None;
            },
        };
        let j3 = match after_colon_exec(b, j1) {
            Some(j) => j,
            None => {
                return None;
            },
        };
        let is_text = is_name(&tag, Name::Text);
        let is_hello = is_name(&tag, Name::Hello);
        let is_welcome = is_name(&tag, Name::Welcome);
        if !(is_text || is_hello || is_welcome) {
            return None;
        }
        let key = if is_text {
            name_bytes(Name::Content)
        } else {
            name_bytes(Name::ServerId)
        };
        let (t, j4) = match payload_value_exec(b, j3, &key) {
            Some(x) => x,
            None => {
                return None;
            },
        };
        let j5 = blanks_end(b, j4);
        if j5 < b.len() && b[j5] == RBRACE {
            proof {
                lemma_rest_step(b@, j5 as int, 1);
            }
            let k = if is_text {
                MessageType::Text { content: t }
            } else if is_hello {
                MessageType::Hello { server_id: t }
            } else {
                MessageType::Welcome { server_id: t }
            };
            Some((k, j5 + 1))
        } else {
            None
        }
    } else {
        None
    }
}

/// The members of an envelope read so far, as values.
struct FieldValues {
    id: Option<String>,
    timestamp: Option<Timestamp>,
    from_server: Option<String>,
    to_server: Option<Option<String>>,
    message_type: Option<MessageType>,
}

impl View for FieldValues {
    type V = Fields;

    closed spec fn view(&self) -> Fields {
        Fields {
            id: crate::message::opt_view(self.id),
            timestamp: self.timestamp,
            from_server: crate::message::opt_view(self.from_server),
            to_server: match self.to_server {
                Some(t) => Some(crate::message::opt_view(t)),
                None => None,
            },
            message_type: match self.message_type {
                Some(k) => Some(k@),
                None => None,
            },
        }
    }
}

fn field_value_exec(k: &Vec<u8>, b: &Vec<u8>, i: usize, acc: FieldValues) -> (r: Option<
    (FieldValues, usize),
>)
    requires
        i <= b@.len(),
    ensures
        match r {
            Some((f, j)) => i < j <= b@.len() && field_value(k@, rest_from(b@, i as int), acc@)
                == Some((f@, rest_from(b@, j as int))),
            None => field_value(k@, rest_from(b@, i as int), acc@) is None,
        },
{
    let mut acc = acc;
    if is_name(k, Name::Id) {
        if acc.id.is_some() {
            return None;
        }
        match text_value_exec(b, i) {
            Some((v, j)) => {
                acc.id = Some(v);
                Some((acc, j))
            },
            None => None,
        }
    } else if is_name(k, Name::Timestamp) {
        if acc.timestamp.is_some() {
            return None;
        }
        match timestamp_value_exec(b, i) {
            Some((v, j)) => {
                acc.timestamp = Some(v);
                Some((acc, j))
            },
            None => None,
        }
    } else if is_name(k, Name::FromServer) {
        if acc.from_server.is_some() {
            return None;
        }
        match text_value_exec(b, i) {
            Some((v, j)) => {
                acc.from_server = Some(v);
                Some((acc, j))
            },
            None => None,
        }
    } else if is_name(k, Name::ToServer) {
        if acc.to_server.is_some() {
            return None;
        }
        match target_value_exec(b, i) {
            Some((v, j)) => {
                acc.to_server = Some(v);
                Some((acc, j))
            },
            None => None,
        }
    } else if is_name(k, Name::MessageType) {
        if acc.message_type.is_some() {
            return None;
        }
        match kind_value_exec(b, i) {
            Some((v, j)) => {
                acc.message_type = Some(v);
                Some((acc, j))
            },
            None => None,
        }
    } else {
        match skip_value_exec(b, i, MAX_DEPTH) {
            Some(j) => Some((acc, j)),
            None => None,
        }
    }
}

fn envelope_members_exec(b: &Vec<u8>, i: usize, acc: FieldValues) -> (r: Option<
    (FieldValues, usize),
>)
    requires
        i <= b@.len(),
    ensures
        match r {
            Some((f, j)) => i < j <= b@.len() && envelope_members(rest_from(b@, i as int), acc@)
                == Some((f@, rest_from(b@, j as int))),
            None => envelope_members(rest_from(b@, i as int), acc@) is None,
        },
    decreases b@.len() - i,
{
    let (k, j1) = match read_string(b, i) {
        Some(x) => x,
        None => {
            return None;
        },
    };
    let j3 = match after_colon_exec(b, j1) {
        Some(j) => j,
        None => {
            return None;
        },
    };
    let (acc2, j4) = match field_value_exec(&k, b, j3, acc) {
        Some(x) => x,
        None => {
            return None;
        },
    };
    let j5 = blanks_end(b, j4);
    if j5 < b.len() && b[j5] == RBRACE {
        proof {
            lemma_rest_step(b@, j5 as int, 1);
        }
        Some((acc2, j5 + 1))
    } else if j5 < b.len() && b[j5] == COMMA {
        proof {
            lemma_rest_step(b@, j5 as int, 1);
        }
        let j6 = blanks_end(b, j5 + 1);
        envelope_members_exec(b, j6, acc2)
    } else {
        None
    }
}

fn complete_exec(f: FieldValues) -> (r: Option<Message>)
    ensures
        match r {
            Some(m) => complete(f@) == Some(m@),
            None => complete(f@) is None,
        },
{
    match (f.id, f.timestamp, f.from_server, f.message_type) {
        (Some(id), Some(timestamp), Some(from_server), Some(message_type)) => {
            let to_server = match f.to_server {
                Some(t) => t,
                None => None,
            };
            Some(Message { id, timestamp, from_server, to_server, message_type })
        },
        _ => None,
    }
}

impl Message {
    /// Reads an envelope from the bytes of one stream.
    pub fn from_bytes(bytes: &[u8]) -> (r: Result<Message, DecodeError>)
        ensures
            match r {
                Ok(m) => decode_spec(bytes@) == Ok::<EnvelopeView, DecodeError>(m@),
                Err(e) => decode_spec(bytes@) == Err::<EnvelopeView, DecodeError>(e),
            },
    {
        if !is_utf8(bytes) {
            return Err(DecodeError::InvalidUtf8);
        }
        let b = vstd::slice::slice_to_vec(bytes);
        let n = b.len();
        proof {
            assert(rest_from(b@, 0) =~= b@);
        }
        let t = blanks_end(&b, 0);
        if !(t < n && b[t] == LBRACE) {
            return Err(DecodeError::Malformed);
        }
        proof {
            lemma_rest_step(b@, t as int, 1);
        }
        let t1 = blanks_end(&b, t + 1);
        let empty = FieldValues {
            id: None,
            timestamp: None,
            from_server: None,
            to_server: None,
            message_type: None,
        };
        assert(empty@ == no_fields());
        match envelope_members_exec(&b, t1, empty) {
            None => Err(DecodeError::Malformed),
            Some((f, j)) => {
                let j2 = blanks_end(&b, j);
                if j2 != n {
                    return Err(DecodeError::Malformed);
                }
                match complete_exec(f) {
                    Some(m) => Ok(m),
                    None => Err(DecodeError::Malformed),
                }
            },
        }
    }
}

proof fn lemma_text_value(x: Seq<char>, rest: Seq<u8>)
    ensures
        text_value(text_bytes(x) + rest) == Some((x, rest)),
{
    lemma_string_token_quoted(encode_utf8(x), rest);
    encode_utf8_valid_utf8(x);
    encode_utf8_decode_utf8(x);
}

proof fn lemma_member_value(n: Name, v: Seq<u8>, rest: Seq<u8>)
    requires
        v.len() > 0,
        !is_blank(v[0]),
    ensures
        string_token(member(n, v) + rest) == Some((name_of(n), seq![COLON] + v + rest)),
        after_colon(seq![COLON] + v + rest) == Some(v + rest),
{
    let t = seq![COLON] + v + rest;
    assert(member(n, v) + rest =~= quoted(name_of(n)) + t);
    lemma_string_token_quoted(name_of(n), t);
    assert(t.drop_first() =~= v + rest);
    assert((v + rest)[0] == v[0]);
}

proof fn lemma_signed_decimal_start(v: int)
    ensures
        signed_decimal(v).len() > 0,
        !is_blank(signed_decimal(v)[0]),
{
    if v < 0 {
        lemma_decimal_digits((-v) as nat);
    } else {
        lemma_decimal_digits(v as nat);
        assert(is_digit(decimal(v as nat)[0]));
    }
}

proof fn lemma_timestamp_value(t: Timestamp, rest: Seq<u8>)
    requires
        t.wf(),
    ensures
        timestamp_value(timestamp_bytes(t) + rest) == Some((t, rest)),
{
    let sd = signed_decimal(t.secs as int);
    let dn = decimal(t.nanos as nat);
    let s = timestamp_bytes(t) + rest;
    let u = seq![RBRACKET] + rest;
    let w = seq![COMMA] + dn + u;
    assert(s.drop_first() =~= sd + w);
    lemma_signed_decimal_start(t.secs as int);
    assert((sd + w)[0] == sd[0]);
    lemma_int_token_decimal(t.secs as int, w);
    assert(w.drop_first() =~= signed_decimal(t.nanos as int) + u);
    lemma_signed_decimal_start(t.nanos as int);
    assert((signed_decimal(t.nanos as int) + u)[0] == signed_decimal(t.nanos as int)[0]);
    lemma_int_token_decimal(t.nanos as int, u);
    assert(u.drop_first() =~= rest);
}

proof fn lemma_target_value(o: Option<Seq<char>>, rest: Seq<u8>)
    ensures
        target_value(target_bytes(o) + rest) == Some((o, rest)),
{
    match o {
        None => {
            let s = lit_null() + rest;
            assert(s.take(4) =~= lit_null());
            assert(s.skip(4) =~= rest);
        },
        Some(x) => {
            lemma_text_value(x, rest);
            assert((text_bytes(x) + rest)[0] == QUOTE);
        },
    }
}

proof fn lemma_names_distinct()
    ensures
        name_of(Name::Ping) != name_of(Name::Pong),
        name_of(Name::Text) != name_of(Name::Hello),
        name_of(Name::Text) != name_of(Name::Welcome),
        name_of(Name::Hello) != name_of(Name::Welcome),
{
    assert(name_of(Name::Ping)[1] != name_of(Name::Pong)[1]);
    assert(name_of(Name::Text)[0] != name_of(Name::Hello)[0]);
    assert(name_of(Name::Text)[0] != name_of(Name::Welcome)[0]);
    assert(name_of(Name::Hello)[0] != name_of(Name::Welcome)[0]);
}

proof fn lemma_payload(tag: Name, key: Name, c: Seq<char>, rest: Seq<u8>)
    requires
        tag == Name::Text || tag == Name::Hello || tag == Name::Welcome,
        key == (if tag == Name::Text {
            Name::Content
        } else {
            Name::ServerId
        }),
    ensures
        kind_value(braced(member(tag, braced(member(key, text_bytes(c))))) + rest) == Some(
            (payload_kind(name_of(tag), c), rest),
        ),
{
    lemma_names_distinct();
    let tb = text_bytes(c);
    let inner = braced(member(key, tb));
    let s = braced(member(tag, inner)) + rest;
    let after_tag = seq![RBRACE] + rest;
    assert(s.drop_first() =~= member(tag, inner) + after_tag);
    assert((member(tag, inner) + after_tag)[0] == QUOTE);
    lemma_member_value(tag, inner, after_tag);
    let after_key = seq![RBRACE] + after_tag;
    let p = inner + after_tag;
    assert(p.drop_first() =~= member(key, tb) + after_key);
    assert((member(key, tb) + after_key)[0] == QUOTE);
    assert(tb[0] == QUOTE);
    lemma_member_value(key, tb, after_key);
    lemma_text_value(c, after_key);
    assert(after_key.drop_first() =~= after_tag);
    assert(after_tag.drop_first() =~= rest);
    assert(payload_value(p, name_of(key)) == Some((c, after_tag)));
}

proof fn lemma_kind_value(k: KindView, rest: Seq<u8>)
    ensures
        kind_value(kind_bytes(k) + rest) == Some((k, rest)),
{
    lemma_names_distinct();
    match k {
        KindView::Text { content } => {
            lemma_payload(Name::Text, Name::Content, content, rest);
        },
        KindView::Hello { server_id } => {
            lemma_payload(Name::Hello, Name::ServerId, server_id, rest);
        },
        KindView::Welcome { server_id } => {
            lemma_payload(Name::Welcome, Name::ServerId, server_id, rest);
        },
        KindView::Ping => {
            lemma_string_token_quoted(name_of(Name::Ping), rest);
        },
        KindView::Pong => {
            lemma_string_token_quoted(name_of(Name::Pong), rest);
        },
    }
}

proof fn lemma_members_step(n: Name, v: Seq<u8>, sep: u8, next: Seq<u8>, acc: Fields, acc2: Fields)
    requires
        v.len() > 0,
        !is_blank(v[0]),
        sep == COMMA || sep == RBRACE,
        sep == COMMA ==> next.len() > 0 && next[0] == QUOTE,
        field_value(name_of(n), v + (seq![sep] + next), acc) == Some((acc2, seq![sep] + next)),
    ensures
        envelope_members(member(n, v) + (seq![sep] + next), acc) == if sep == COMMA {
            envelope_members(next, acc2)
        } else {
            Some((acc2, next))
        },
{
    let rest = seq![sep] + next;
    lemma_member_value(n, v, rest);
    assert(seq![COLON] + v + rest =~= seq![COLON] + (v + rest));
    assert((seq![COLON] + v + rest).drop_first() =~= v + rest);
    assert(rest.drop_first() =~= next);
}

spec fn tail5(e: EnvelopeView) -> Seq<u8> {
    member(Name::MessageType, kind_bytes(e.message_type)) + seq![RBRACE]
}

spec fn tail4(e: EnvelopeView) -> Seq<u8> {
    member(Name::ToServer, target_bytes(e.to_server)) + (seq![COMMA] + tail5(e))
}

spec fn tail3(e: EnvelopeView) -> Seq<u8> {
    member(Name::FromServer, text_bytes(e.from_server)) + (seq![COMMA] + tail4(e))
}

spec fn tail2(e: EnvelopeView) -> Seq<u8> {
    member(Name::Timestamp, timestamp_bytes(e.timestamp)) + (seq![COMMA] + tail3(e))
}

spec fn tail1(e: EnvelopeView) -> Seq<u8> {
    member(Name::Id, text_bytes(e.id)) + (seq![COMMA] + tail2(e))
}

spec fn fields1(e: EnvelopeView) -> Fields {
    Fields { id: Some(e.id), ..no_fields() }
}

spec fn fields2(e: EnvelopeView) -> Fields {
    Fields { timestamp: Some(e.timestamp), ..fields1(e) }
}

spec fn fields3(e: EnvelopeView) -> Fields {
    Fields { from_server: Some(e.from_server), ..fields2(e) }
}

spec fn fields4(e: EnvelopeView) -> Fields {
    Fields { to_server: Some(e.to_server), ..fields3(e) }
}

spec fn fields5(e: EnvelopeView) -> Fields {
    Fields { message_type: Some(e.message_type), ..fields4(e) }
}

proof fn lemma_step1(e: EnvelopeView)
    ensures
        envelope_members(tail1(e), no_fields()) == envelope_members(tail2(e), fields1(e)),
{
    assert(tail2(e)[0] == QUOTE);
    lemma_text_value(e.id, seq![COMMA] + tail2(e));
    lemma_members_step(Name::Id, text_bytes(e.id), COMMA, tail2(e), no_fields(), fields1(e));
}

proof fn lemma_step2(e: EnvelopeView)
    requires
        e.wf(),
    ensures
        envelope_members(tail2(e), fields1(e)) == envelope_members(tail3(e), fields2(e)),
{
    assert(tail3(e)[0] == QUOTE);
    lemma_timestamp_value(e.timestamp, seq![COMMA] + tail3(e));
    assert(timestamp_bytes(e.timestamp)[0] == LBRACKET);
    lemma_members_step(
        Name::Timestamp,
        timestamp_bytes(e.timestamp),
        COMMA,
        tail3(e),
        fields1(e),
        fields2(e),
    );
}

proof fn lemma_step3(e: EnvelopeView)
    ensures
        envelope_members(tail3(e), fields2(e)) == envelope_members(tail4(e), fields3(e)),
{
    assert(tail4(e)[0] == QUOTE);
    lemma_text_value(e.from_server, seq![COMMA] + tail4(e));
    lemma_members_step(
        Name::FromServer,
        text_bytes(e.from_server),
        COMMA,
        tail4(e),
        fields2(e),
        fields3(e),
    );
}

proof fn lemma_step4(e: EnvelopeView)
    ensures
        envelope_members(tail4(e), fields3(e)) == envelope_members(tail5(e), fields4(e)),
{
    assert(tail5(e)[0] == QUOTE);
    lemma_target_value(e.to_server, seq![COMMA] + tail5(e));
    lemma_members_step(
        Name::ToServer,
        target_bytes(e.to_server),
        COMMA,
        tail5(e),
        fields3(e),
        fields4(e),
    );
}

proof fn lemma_step5(e: EnvelopeView)
    ensures
        envelope_members(tail5(e), fields4(e)) == Some((fields5(e), Seq::<u8>::empty())),
{
    let end = Seq::<u8>::empty();
    lemma_kind_value(e.message_type, seq![RBRACE] + end);
    assert(seq![RBRACE] =~= seq![RBRACE] + end);
    assert(kind_bytes(e.message_type)[0] == QUOTE || kind_bytes(e.message_type)[0] == LBRACE);
    lemma_members_step(
        Name::MessageType,
        kind_bytes(e.message_type),
        RBRACE,
        end,
        fields4(e),
        fields5(e),
    );
}

proof fn lemma_record(e: EnvelopeView)
    requires
        e.wf(),
    ensures
        record(envelope_bytes(e)) == Some(e),
{
    lemma_step1(e);
    lemma_step2(e);
    lemma_step3(e);
    lemma_step4(e);
    lemma_step5(e);
    lemma_shape(e);
    let b = seq![LBRACE] + tail1(e);
    assert(b.drop_first() =~= tail1(e));
    assert(tail1(e)[0] == QUOTE);
    assert(skip_blanks(b) == b);
    assert(skip_blanks(tail1(e)) == tail1(e));
    assert(complete(fields5(e)) == Some(e));
}

#[verifier::rlimit(40)]
proof fn lemma_shape(e: EnvelopeView)
    ensures
        envelope_bytes(e) == seq![LBRACE] + tail1(e),
{
    assert(envelope_bytes(e) =~= seq![LBRACE] + tail1(e));
}

proof fn lemma_byte_valid(b: u8)
    requires
        b < 0x80,
    ensures
        valid_utf8(seq![b]),
{
    lemma_ascii_valid(seq![b]);
}

proof fn lemma_quoted_valid(c: Seq<u8>)
    requires
        valid_utf8(escape(c)),
    ensures
        valid_utf8(quoted(c)),
{
    lemma_byte_valid(QUOTE);
    valid_utf8_concat(seq![QUOTE], escape(c));
    valid_utf8_concat(seq![QUOTE] + escape(c), seq![QUOTE]);
}

proof fn lemma_text_valid(x: Seq<char>)
    ensures
        valid_utf8(text_bytes(x)),
{
    lemma_escape_utf8_valid(x);
    lemma_quoted_valid(encode_utf8(x));
}

proof fn lemma_member_valid(n: Name, v: Seq<u8>)
    requires
        valid_utf8(v),
    ensures
        valid_utf8(member(n, v)),
{
    assert(all_ascii(name_of(n)));
    lemma_escape_ascii(name_of(n));
    lemma_ascii_valid(escape(name_of(n)));
    lemma_quoted_valid(name_of(n));
    lemma_byte_valid(COLON);
    valid_utf8_concat(quoted(name_of(n)), seq![COLON]);
    valid_utf8_concat(quoted(name_of(n)) + seq![COLON], v);
}

proof fn lemma_braced_valid(m: Seq<u8>)
    requires
        valid_utf8(m),
    ensures
        valid_utf8(braced(m)),
{
    lemma_byte_valid(LBRACE);
    lemma_byte_valid(RBRACE);
    valid_utf8_concat(seq![LBRACE], m);
    valid_utf8_concat(seq![LBRACE] + m, seq![RBRACE]);
}

proof fn lemma_decimal_valid(v: int)
    ensures
        valid_utf8(signed_decimal(v)),
{
    let m: nat = if v < 0 {
        (-v) as nat
    } else {
        v as nat
    };
    lemma_decimal_digits(m);
    assert(all_ascii(decimal(m)));
    lemma_ascii_valid(decimal(m));
    lemma_byte_valid(0x2d);
    valid_utf8_concat(seq![0x2du8], decimal(m));
}

proof fn lemma_timestamp_valid(t: Timestamp)
    ensures
        valid_utf8(timestamp_bytes(t)),
{
    let a = signed_decimal(t.secs as int);
    let b = decimal(t.nanos as nat);
    lemma_decimal_valid(t.secs as int);
    lemma_decimal_valid(t.nanos as int);
    lemma_byte_valid(LBRACKET);
    lemma_byte_valid(COMMA);
    lemma_byte_valid(RBRACKET);
    valid_utf8_concat(seq![LBRACKET], a);
    valid_utf8_concat(seq![LBRACKET] + a, seq![COMMA]);
    valid_utf8_concat(seq![LBRACKET] + a + seq![COMMA], b);
    valid_utf8_concat(seq![LBRACKET] + a + seq![COMMA] + b, seq![RBRACKET]);
}

proof fn lemma_kind_valid(k: KindView)
    ensures
        valid_utf8(kind_bytes(k)),
{
    match k {
        KindView::Text { content } => {
            lemma_text_valid(content);
            lemma_member_valid(Name::Content, text_bytes(content));
            lemma_braced_valid(member(Name::Content, text_bytes(content)));
            lemma_member_valid(Name::Text, braced(member(Name::Content, text_bytes(content))));
            lemma_braced_valid(
                member(Name::Text, braced(member(Name::Content, text_bytes(content)))),
            );
        },
        KindView::Hello { server_id } => {
            lemma_text_valid(server_id);
            lemma_member_valid(Name::ServerId, text_bytes(server_id));
            lemma_braced_valid(member(Name::ServerId, text_bytes(server_id)));
            lemma_member_valid(Name::Hello, braced(member(Name::ServerId, text_bytes(server_id))));
            lemma_braced_valid(
                member(Name::Hello, braced(member(Name::ServerId, text_bytes(server_id)))),
            );
        },
        KindView::Welcome { server_id } => {
            lemma_text_valid(server_id);
            lemma_member_valid(Name::ServerId, text_bytes(server_id));
            lemma_braced_valid(member(Name::ServerId, text_bytes(server_id)));
            lemma_member_valid(
                Name::Welcome,
                braced(member(Name::ServerId, text_bytes(server_id))),
            );
            lemma_braced_valid(
                member(Name::Welcome, braced(member(Name::ServerId, text_bytes(server_id)))),
            );
        },
        KindView::Ping => {
            assert(all_ascii(name_of(Name::Ping)));
            lemma_escape_ascii(name_of(Name::Ping));
            lemma_ascii_valid(escape(name_of(Name::Ping)));
            lemma_quoted_valid(name_of(Name::Ping));
        },
        KindView::Pong => {
            assert(all_ascii(name_of(Name::Pong)));
            lemma_escape_ascii(name_of(Name::Pong));
            lemma_ascii_valid(escape(name_of(Name::Pong)));
            lemma_quoted_valid(name_of(Name::Pong));
        },
    }
}

proof fn lemma_envelope_valid(e: EnvelopeView)
    ensures
        valid_utf8(envelope_bytes(e)),
{
    lemma_text_valid(e.id);
    lemma_member_valid(Name::Id, text_bytes(e.id));
    lemma_timestamp_valid(e.timestamp);
    lemma_member_valid(Name::Timestamp, timestamp_bytes(e.timestamp));
    lemma_text_valid(e.from_server);
    lemma_member_valid(Name::FromServer, text_bytes(e.from_server));
    match e.to_server {
        Some(x) => lemma_text_valid(x),
        None => {
            assert(all_ascii(lit_null()));
            lemma_ascii_valid(lit_null());
        },
    }
    lemma_member_valid(Name::ToServer, target_bytes(e.to_server));
    lemma_kind_valid(e.message_type);
    lemma_member_valid(Name::MessageType, kind_bytes(e.message_type));
    lemma_byte_valid(COMMA);
    let c = seq![COMMA];
    let m1 = member(Name::Id, text_bytes(e.id));
    let m2 = member(Name::Timestamp, timestamp_bytes(e.timestamp));
    let m3 = member(Name::FromServer, text_bytes(e.from_server));
    let m4 = member(Name::ToServer, target_bytes(e.to_server));
    let m5 = member(Name::MessageType, kind_bytes(e.message_type));
    valid_utf8_concat(m1, c);
    valid_utf8_concat(m1 + c, m2);
    valid_utf8_concat(m1 + c + m2, c);
    valid_utf8_concat(m1 + c + m2 + c, m3);
    valid_utf8_concat(m1 + c + m2 + c + m3, c);
    valid_utf8_concat(m1 + c + m2 + c + m3 + c, m4);
    valid_utf8_concat(m1 + c + m2 + c + m3 + c + m4, c);
    valid_utf8_concat(m1 + c + m2 + c + m3 + c + m4 + c, m5);
    let m = m1 + c + m2 + c + m3 + c + m4 + c + m5;
    lemma_braced_valid(m);
}

/// Reading what was written gives back the envelope: for every envelope
/// whose timestamp is well formed, decoding its wire form succeeds and
/// yields an equal envelope.
pub proof fn lemma_round_trip(e: EnvelopeView)
    requires
        e.wf(),
    ensures
        decode_spec(envelope_bytes(e)) == Ok::<EnvelopeView, DecodeError>(e),
{
    lemma_envelope_valid(e);
    lemma_record(e);
}

} // verus!
