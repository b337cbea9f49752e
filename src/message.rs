//! The envelope: identity, creation time, sender, optional recipient and one
//! of five kinds of payload; how to make one and how to show it.
use vstd::prelude::*;
use vstd::utf8::{
    encode_utf8, encode_utf8_decode_utf8, encode_utf8_valid_utf8, is_ascii_chars,
    is_ascii_chars_encode_utf8,
};
use vstd::arithmetic::div_mod::lemma_mod_multiples_vanish;
use crate::codec::string_from_utf8;

verus! {

/// Seconds and nanoseconds since the Unix epoch, in UTC.
///
/// A nanosecond count of one billion or more marks a leap second, as the
/// clock that supplies timestamps represents it.
#[derive(Clone, Copy, Debug, PartialEq, Eq, Structural)]
pub struct Timestamp {
    pub secs: i64,
    pub nanos: u32,
}

/// Nanosecond counts stay below this bound (a leap second reaches past one billion).
pub const NANOS_BOUND: u32 = 2_000_000_000;

impl Timestamp {
    pub open spec fn wf(self) -> bool {
        self.nanos < NANOS_BOUND
    }
}

/// The payload of an envelope: exactly one of five kinds.
#[derive(Clone, Debug)]
pub enum MessageType {
    Text { content: String },
    Hello { server_id: String },
    Welcome { server_id: String },
    Ping,
    Pong,
}

/// The mathematical value of a `MessageType`.
pub enum KindView {
    Text { content: Seq<char> },
    Hello { server_id: Seq<char> },
    Welcome { server_id: Seq<char> },
    Ping,
    Pong,
}

impl View for MessageType {
    type V = KindView;

    open spec fn view(&self) -> KindView {
        match self {
            MessageType::Text { content } => KindView::Text { content: content@ },
            MessageType::Hello { server_id } => KindView::Hello { server_id: server_id@ },
            MessageType::Welcome { server_id } => KindView::Welcome { server_id: server_id@ },
            MessageType::Ping => KindView::Ping,
            MessageType::Pong => KindView::Pong,
        }
    }
}

/// One unit of communication between peers.
#[derive(Clone, Debug)]
pub struct Message {
    pub id: String,
    pub timestamp: Timestamp,
    pub from_server: String,
    /// `None` addresses every peer but the sender.
    pub to_server: Option<String>,
    pub message_type: MessageType,
}

/// The mathematical value of a `Message`.
pub struct EnvelopeView {
    pub id: Seq<char>,
    pub timestamp: Timestamp,
    pub from_server: Seq<char>,
    pub to_server: Option<Seq<char>>,
    pub message_type: KindView,
}

pub open spec fn opt_view(o: Option<String>) -> Option<Seq<char>> {
    match o {
        Some(s) => Some(s@),
        None => None,
    }
}

impl View for Message {
    type V = EnvelopeView;

    open spec fn view(&self) -> EnvelopeView {
        EnvelopeView {
            id: self.id@,
            timestamp: self.timestamp,
            from_server: self.from_server@,
            to_server: opt_view(self.to_server),
            message_type: self.message_type@,
        }
    }
}

impl EnvelopeView {
    pub open spec fn wf(self) -> bool {
        self.timestamp.wf()
    }
}

/// Relies on uuid's `Uuid::new_v4` and its `Display`, which writes the
/// hyphenated form of 36 characters.
#[verifier::external_body]
fn fresh_id() -> (r: String)
    ensures
        r@.len() == 36,
{
    uuid::Uuid::new_v4().to_string()
}

/// Relies on chrono's `Utc::now`, read as whole seconds and the nanoseconds
/// past them; chrono keeps the latter under two billion.
#[verifier::external_body]
fn now() -> (r: Timestamp)
    ensures
        r.wf(),
{
    let t = chrono::Utc::now();
    Timestamp { secs: t.timestamp(), nanos: t.timestamp_subsec_nanos() }
}

impl Message {
    /// A broadcast envelope from `from_server`, with a fresh identifier and
    /// the current time.
    pub fn new(from_server: String, message_type: MessageType) -> (r: Message)
        ensures
            r@.from_server == from_server@,
            r@.to_server is None,
            r@.message_type == message_type@,
            r@.id.len() == 36,
            r@.wf(),
    {
        Message {
            id: fresh_id(),
            timestamp: now(),
            from_server,
            to_server: None,
            message_type,
        }
    }

    /// An envelope from `from_server` addressed to `to_server` alone.
    pub fn new_to(from_server: String, to_server: String, message_type: MessageType) -> (r:
        Message)
        ensures
            r@.from_server == from_server@,
            r@.to_server == Some(to_server@),
            r@.message_type == message_type@,
            r@.id.len() == 36,
            r@.wf(),
    {
        Message {
            id: fresh_id(),
            timestamp: now(),
            from_server,
            to_server: Some(to_server),
            message_type,
        }
    }
}

/// The character of a decimal digit.
pub open spec fn digit(d: int) -> char {
    ((48 + d) as u8) as char
}

pub open spec fn two_digits(n: int) -> Seq<char> {
    seq![digit(n / 10), digit(n % 10)]
}

/// The time of day in UTC as `HH:MM:SS`; a leap second reads as second 60.
pub open spec fn clock_text(t: Timestamp) -> Seq<char> {
    let day = (t.secs as int) % 86400;
    let leap: int = if t.nanos >= 1_000_000_000 {
        1
    } else {
        0
    };
    two_digits(day / 3600) + ":"@ + two_digits((day % 3600) / 60) + ":"@ + two_digits(
        day % 60 + leap,
    )
}

/// The line that shows an envelope to a person; heartbeats show nothing.
pub open spec fn display_text(e: EnvelopeView) -> Seq<char> {
    match e.message_type {
        KindView::Text { content } => "["@ + clock_text(e.timestamp) + "] "@ + e.from_server
            + ": "@ + content,
        KindView::Hello { server_id } => "["@ + clock_text(e.timestamp) + "] "@ + server_id
            + " 加入聊天室"@,
        KindView::Welcome { server_id } => "["@ + clock_text(e.timestamp) + "] 欢迎 "@
            + server_id + " 加入"@,
        _ => Seq::<char>::empty(),
    }
}

proof fn lemma_encode_utf8_concat(a: Seq<char>, b: Seq<char>)
    ensures
        encode_utf8(a + b) == encode_utf8(a) + encode_utf8(b),
    decreases a.len(),
{
    if a.len() == 0 {
        assert(a + b =~= b);
        assert(encode_utf8(a) + encode_utf8(b) =~= encode_utf8(b));
    } else {
        assert((a + b).drop_first() =~= a.drop_first() + b);
        lemma_encode_utf8_concat(a.drop_first(), b);
        assert(encode_utf8(a + b) =~= encode_utf8(a) + encode_utf8(b));
    }
}

/// Appends the UTF-8 bytes of `s`, extending the text written so far.
fn push_str(out: &mut Vec<u8>, s: &str, Ghost(text): Ghost<Seq<char>>)
    requires
        old(out)@ == encode_utf8(text),
    ensures
        final(out)@ == encode_utf8(text + s@),
{
    let b = s.as_bytes();
    let mut i: usize = 0;
    while i < b.len()
        invariant
            i <= b@.len(),
            b@ == encode_utf8(s@),
            out@ == encode_utf8(text) + b@.take(i as int),
        decreases b@.len() - i,
    {
        out.push(b[i]);
        assert(b@.take(i as int + 1) =~= b@.take(i as int).push(b@[i as int]));
        assert(out@ =~= encode_utf8(text) + b@.take(i as int + 1));
        i = i + 1;
    }
    proof {
        assert(b@.take(b@.len() as int) =~= b@);
        lemma_encode_utf8_concat(text, s@);
    }
}

/// Appends one decimal digit.
fn push_digit(out: &mut Vec<u8>, d: u8, Ghost(text): Ghost<Seq<char>>)
    requires
        d < 10,
        old(out)@ == encode_utf8(text),
    ensures
        final(out)@ == encode_utf8(text.push(digit(d as int))),
{
    let ghost c = seq![digit(d as int)];
    let b: u8 = 48 + d;
    proof {
        assert(is_ascii_chars(c));
        is_ascii_chars_encode_utf8(c);
        assert(encode_utf8(c) =~= seq![b]);
        assert(text.push(digit(d as int)) =~= text + c);
        lemma_encode_utf8_concat(text, c);
    }
    out.push(b);
}

fn push_two_digits(out: &mut Vec<u8>, n: u64, Ghost(text): Ghost<Seq<char>>)
    requires
        n < 100,
        old(out)@ == encode_utf8(text),
    ensures
        final(out)@ == encode_utf8(text + two_digits(n as int)),
{
    push_digit(out, (n / 10) as u8, Ghost(text));
    push_digit(out, (n % 10) as u8, Ghost(text.push(digit((n / 10) as int))));
    assert(text.push(digit((n / 10) as int)).push(digit((n % 10) as int)) =~= text + two_digits(
        n as int,
    ));
}

fn push_clock(out: &mut Vec<u8>, t: Timestamp, Ghost(text): Ghost<Seq<char>>)
    requires
        old(out)@ == encode_utf8(text),
    ensures
        final(out)@ == encode_utf8(text + clock_text(t)),
{
    let shift: i128 = 86400 * 106751991167301;
    let shifted: i128 = t.secs as i128 + shift;
    let day: u64 = ((shifted as u128) % 86400) as u64;
    proof {
        lemma_mod_multiples_vanish(106751991167301, t.secs as int, 86400);
        assert(shifted as int == 86400 * 106751991167301 + t.secs as int);
        assert(day as int == (t.secs as int) % 86400);
    }
    let leap: u64 = if t.nanos >= 1_000_000_000 {
        1
    } else {
        0
    };
    let ghost t1 = text + two_digits(day as int / 3600);
    let ghost t2 = t1 + ":"@;
    let ghost t3 = t2 + two_digits((day as int % 3600) / 60);
    let ghost t4 = t3 + ":"@;
    push_two_digits(out, day / 3600, Ghost(text));
    push_str(out, ":", Ghost(t1));
    push_two_digits(out, (day % 3600) / 60, Ghost(t2));
    push_str(out, ":", Ghost(t3));
    push_two_digits(out, day % 60 + leap, Ghost(t4));
    assert(t4 + two_digits(day as int % 60 + leap as int) =~= text + clock_text(t));
}

impl Message {
    /// The line that shows this envelope to a person: `[HH:MM:SS] from: text`
    /// for a text message, a join line for `Hello` and a welcome line for
    /// `Welcome`; heartbeats give the empty string.
    pub fn format_display(&self) -> (r: String)
        ensures
            r@ == display_text(self@),
    {
        let ghost e = self@;
        let mut out: Vec<u8> = Vec::new();
        let ghost empty = Seq::<char>::empty();
        assert(out@ =~= encode_utf8(empty));
        match &self.message_type {
            MessageType::Text { content } => {
                push_str(&mut out, "[", Ghost(empty));
                push_clock(&mut out, self.timestamp, Ghost(empty + "["@));
                let ghost t1 = empty + "["@ + clock_text(e.timestamp);
                push_str(&mut out, "] ", Ghost(t1));
                push_str(&mut out, self.from_server.as_str(), Ghost(t1 + "] "@));
                push_str(&mut out, ": ", Ghost(t1 + "] "@ + e.from_server));
                push_str(&mut out, content.as_str(), Ghost(t1 + "] "@ + e.from_server + ": "@));
                assert(empty + "["@ + clock_text(e.timestamp) + "] "@ + e.from_server + ": "@
                    + content@ =~= display_text(e));
            },
            MessageType::Hello { server_id } => {
                push_str(&mut out, "[", Ghost(empty));
                push_clock(&mut out, self.timestamp, Ghost(empty + "["@));
                let ghost t1 = empty + "["@ + clock_text(e.timestamp);
                push_str(&mut out, "] ", Ghost(t1));
                push_str(&mut out, server_id.as_str(), Ghost(t1 + "] "@));
                push_str(&mut out, " 加入聊天室", Ghost(t1 + "] "@ + server_id@));
                assert(empty + "["@ + clock_text(e.timestamp) + "] "@ + server_id@ + " 加入聊天室"@
                    =~= display_text(e));
            },
            MessageType::Welcome { server_id } => {
                push_str(&mut out, "[", Ghost(empty));
                push_clock(&mut out, self.timestamp, Ghost(empty + "["@));
                let ghost t1 = empty + "["@ + clock_text(e.timestamp);
                push_str(&mut out, "] 欢迎 ", Ghost(t1));
                push_str(&mut out, server_id.as_str(), Ghost(t1 + "] 欢迎 "@));
                push_str(&mut out, " 加入", Ghost(t1 + "] 欢迎 "@ + server_id@));
                assert(empty + "["@ + clock_text(e.timestamp) + "] 欢迎 "@ + server_id@ + " 加入"@
                    =~= display_text(e));
            },
            _ => {
                assert(display_text(e) =~= empty);
            },
        }
        proof {
            encode_utf8_valid_utf8(display_text(e));
            encode_utf8_decode_utf8(display_text(e));
        }
        match string_from_utf8(out) {
            Some(s) => s,
            None => String::new(),
        }
    }
}

impl PartialEq for MessageType {
    fn eq(&self, other: &MessageType) -> (r: bool)
        ensures
            r == (self@ == other@),
    {
        match (self, other) {
            (MessageType::Text { content: a }, MessageType::Text { content: b }) => *a == *b,
            (MessageType::Hello { server_id: a }, MessageType::Hello { server_id: b }) => *a
                == *b,
            (MessageType::Welcome { server_id: a }, MessageType::Welcome { server_id: b }) => *a
                == *b,
            (MessageType::Ping, MessageType::Ping) => true,
            (MessageType::Pong, MessageType::Pong) => true,
            _ => false,
        }
    }
}

impl vstd::std_specs::cmp::PartialEqSpecImpl for MessageType {
    open spec fn obeys_eq_spec() -> bool {
        true
    }

    open spec fn eq_spec(&self, other: &MessageType) -> bool {
        self@ == other@
    }
}

fn same_target(a: &Option<String>, b: &Option<String>) -> (r: bool)
    ensures
        r == (opt_view(*a) == opt_view(*b)),
{
    match (a, b) {
        (Some(x), Some(y)) => *x == *y,
        (None, None) => true,
        _ => false,
    }
}

impl PartialEq for Message {
    /// Two envelopes are equal when every field is.
    fn eq(&self, other: &Message) -> (r: bool)
        ensures
            r == (self@ == other@),
    {
        self.id == other.id && self.timestamp == other.timestamp && self.from_server
            == other.from_server && same_target(&self.to_server, &other.to_server)
            && self.message_type == other.message_type
    }
}

impl vstd::std_specs::cmp::PartialEqSpecImpl for Message {
    open spec fn obeys_eq_spec() -> bool {
        true
    }

    open spec fn eq_spec(&self, other: &Message) -> bool {
        self@ == other@
    }
}

} // verus!
