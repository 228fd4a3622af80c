//! Wire protocol types: the event envelope carried on every frame, the error
//! frame, the handshake payloads and display-name validation.
use vstd::prelude::*;

use crate::text::{
    collapse_whitespace, collapse_whitespace_exec, is_printable_str, is_printable_text,
    is_collapsed, is_unprintable, is_ws, lemma_collapse_idempotent, lemma_collapse_shape,
    lemma_collapse_single_word, lemma_printable_chars, string_of,
};

verus! {

/// Protocol version spoken by this build; a handshake with another version is refused.
pub const PROTO_VERSION: u32 = 1;

/// Longest accepted display name, in characters.
pub const MAX_DISPLAY_NAME_CHARS: usize = 24;

/// Who is allowed to originate a given event type (serialized lowercase).
#[derive(Clone, Copy, Debug, PartialEq, Eq, Structural)]
pub enum Authority {
    Host,
    Server,
    Client,
}

/// The message shape carried on every frame, handshake included.
///
/// Identifiers are the 128-bit values of their UUIDs; `timestamp_sim_bits` holds
/// the IEEE-754 bits of the in-game time; `payload` is the JSON text of the
/// per-type body. `seq` is assigned by the server on ingest.
#[derive(Clone, Debug, PartialEq)]
pub struct EventEnvelope {
    pub v: u32,
    pub event_type: String,
    pub session_id: u128,
    pub seq: u64,
    pub timestamp_sim_bits: u64,
    pub sender_id: u128,
    pub authority: Authority,
    pub payload: String,
}

impl EventEnvelope {
    /// A copy of the envelope.
    pub fn duplicate(&self) -> (r: Self)
        ensures
            r == *self,
    {
        EventEnvelope {
            v: self.v,
            event_type: self.event_type.clone(),
            session_id: self.session_id,
            seq: self.seq,
            timestamp_sim_bits: self.timestamp_sim_bits,
            sender_id: self.sender_id,
            authority: self.authority,
            payload: self.payload.clone(),
        }
    }
}

/// A copy of a list of envelopes.
pub fn duplicate_all(v: &Vec<EventEnvelope>) -> (r: Vec<EventEnvelope>)
    ensures
        r@ == v@,
{
    let mut r: Vec<EventEnvelope> = Vec::new();
    let n = v.len();
    for i in 0..n
        invariant
            n == v@.len(),
            r@ == v@.take(i as int),
    {
        r.push(v[i].duplicate());
        assert(r@ =~= v@.take(i + 1));
    }
    assert(v@.take(n as int) =~= v@);
    r
}

/// Canonical server-to-client error frame: `code` is stable SCREAMING_SNAKE,
/// `message` is safe to show to a client.
#[derive(Clone, Debug, PartialEq, Eq)]
pub struct WsErrorFrame {
    pub v: u32,
    pub frame_type: String,
    pub code: String,
    pub message: String,
}

impl WsErrorFrame {
    /// An error frame of version 1 and type `"error"`.
    pub fn new(code: &str, message: &str) -> (r: Self)
        ensures
            r.v == 1,
            r.frame_type@ == "error"@,
            r.code@ == code@,
            r.message@ == message@,
    {
        WsErrorFrame {
            v: 1,
            frame_type: string_of("error"),
            code: string_of(code),
            message: string_of(message),
        }
    }
}

/// Version and compatibility payload of the first frame a client sends.
#[derive(Clone, Debug, PartialEq, Eq)]
pub struct HandshakePayload {
    pub mod_version: String,
    pub proto_version: u32,
    pub bridge_version: String,
    pub game_version: String,
    pub mods_fingerprint: String,
    pub join_code: String,
    pub display_name: String,
}

/// Server reply payload for an accepted handshake: the assigned ids and the
/// confirmed display name.
#[derive(Clone, Debug, PartialEq, Eq)]
pub struct HandshakeAckPayload {
    pub client_id: u128,
    pub session_id: u128,
    pub display_name: String,
    pub proto_version: u32,
}

/// Why a display name is refused: nothing left after trimming, more than 24
/// characters, or a character that is not printable.
pub open spec fn display_name_error(raw: Seq<char>) -> Option<Seq<char>> {
    let name = collapse_whitespace(raw);
    if name.len() == 0 {
        Some("empty"@)
    } else if name.len() > MAX_DISPLAY_NAME_CHARS {
        Some("too_long"@)
    } else if !is_printable_text(name) {
        Some("not_printable"@)
    } else {
        None
    }
}

/// Validates a player-chosen display name: surrounding whitespace is trimmed
/// and inner runs of whitespace collapse to one space; the result must hold
/// 1 to 24 characters, all printable (no control, format or private-use
/// characters). Refusals are `"empty"`, `"too_long"` and `"not_printable"`.
pub fn normalize_display_name(raw: &str) -> (r: Result<String, &'static str>)
    ensures
        match r {
            Ok(name) => display_name_error(raw@) is None && name@ == collapse_whitespace(raw@),
            Err(e) => display_name_error(raw@) == Some(e@),
        },
{
    let (name, n) = collapse_whitespace_exec(raw, MAX_DISPLAY_NAME_CHARS + 1);
    if n == 0 {
        let e = "empty";
        proof {
            reveal_strlit("empty");
        }
        Err(e)
    } else if n > MAX_DISPLAY_NAME_CHARS {
        let e = "too_long";
        Err(e)
    } else if !is_printable_str(name.as_str()) {
        let e = "not_printable";
        Err(e)
    } else {
        Ok(name)
    }
}

/// Which names are accepted: every name whose collapsed form holds 1 to 24
/// characters taken from the space, the ASCII letters, digits and
/// punctuation is accepted; and a name of 1 to 24 ASCII letters, digits and
/// punctuation marks (no spaces) is accepted unchanged.
pub proof fn lemma_plain_names_accepted(raw: Seq<char>)
    ensures
        ({
            let n = collapse_whitespace(raw);
            1 <= n.len() <= 24 && (forall|i: int| 0 <= i < n.len() ==> 0x20 <= (#[trigger] n[i]) as u32 <= 0x7E)
        }) ==> display_name_error(raw) is None,
        (1 <= raw.len() <= 24 && forall|i: int| 0 <= i < raw.len() ==> 0x21 <= (#[trigger] raw[i]) as u32 <= 0x7E)
            ==> display_name_error(raw) is None && collapse_whitespace(raw) == raw,
{
    let n = collapse_whitespace(raw);
    if 1 <= n.len() <= 24 && (forall|i: int| 0 <= i < n.len() ==> 0x20 <= (#[trigger] n[i]) as u32 <= 0x7E) {
        assert forall|i: int| 0 <= i < n.len() implies !is_unprintable(#[trigger] n[i]) by {
            lemma_printable_chars(n[i]);
        }
    }
    if 1 <= raw.len() <= 24 && forall|i: int| 0 <= i < raw.len() ==> 0x21 <= (#[trigger] raw[i]) as u32 <= 0x7E {
        assert forall|i: int| 0 <= i < raw.len() implies !is_ws(#[trigger] raw[i]) by {
            assert(0x21 <= raw[i] as u32 <= 0x7E);
        }
        lemma_collapse_single_word(raw);
        assert forall|i: int| 0 <= i < raw.len() implies !is_unprintable(#[trigger] raw[i]) by {
            lemma_printable_chars(raw[i]);
        }
    }
}

/// Why names are refused: nothing but whitespace is `"empty"`; more than 24
/// characters once whitespace is collapsed is `"too_long"`; otherwise a
/// control character that is not whitespace (U+0000..U+0008, U+000E..U+001F,
/// U+007F..U+0084, U+0086..U+009F) makes it `"not_printable"`.
pub proof fn lemma_name_refusals(raw: Seq<char>)
    ensures
        collapse_whitespace(raw).len() == 0 ==> display_name_error(raw) == Some("empty"@),
        collapse_whitespace(raw).len() > 24 ==> display_name_error(raw) == Some("too_long"@),
        ({
            let n = collapse_whitespace(raw);
            &&& 1 <= n.len() <= 24
            &&& exists|i: int|
                0 <= i < n.len() && {
                    let u = (#[trigger] n[i]) as u32;
                    u <= 0x08 || (0x0E <= u <= 0x1F) || (0x7F <= u <= 0x84) || (0x86 <= u <= 0x9F)
                }
        }) ==> display_name_error(raw) == Some("not_printable"@),
{
    let n = collapse_whitespace(raw);
    if 1 <= n.len() <= 24 && exists|i: int|
        0 <= i < n.len() && {
            let u = (#[trigger] n[i]) as u32;
            u <= 0x08 || (0x0E <= u <= 0x1F) || (0x7F <= u <= 0x84) || (0x86 <= u <= 0x9F)
        } {
        let i = choose|i: int|
            0 <= i < n.len() && {
                let u = (#[trigger] n[i]) as u32;
                u <= 0x08 || (0x0E <= u <= 0x1F) || (0x7F <= u <= 0x84) || (0x86 <= u <= 0x9F)
            };
        lemma_printable_chars(n[i]);
    }
}

/// A confirmed display name passes validation again and comes back unchanged;
/// it holds 1 to 24 printable characters, and its only whitespace is single
/// spaces between words.
pub proof fn lemma_confirmed_name_is_stable(raw: Seq<char>)
    requires
        display_name_error(raw) is None,
    ensures
        display_name_error(collapse_whitespace(raw)) is None,
        collapse_whitespace(collapse_whitespace(raw)) == collapse_whitespace(raw),
        1 <= collapse_whitespace(raw).len() <= MAX_DISPLAY_NAME_CHARS,
        is_printable_text(collapse_whitespace(raw)),
        is_collapsed(collapse_whitespace(raw)),
{
    lemma_collapse_idempotent(raw);
    lemma_collapse_shape(raw);
}

} // verus!
