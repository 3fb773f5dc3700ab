//! The message types of the chat protocol.

use vstd::prelude::*;

verus! {

/// Ask our own User Agent to host a new room.
pub const OPEN_ROOM: u8 = 0x01;

/// The User Agent's answer to `OPEN_ROOM`.
pub const ROOM_CREATED: u8 = 0x02;

/// A room host invites a member.
pub const INVITE: u8 = 0x03;

/// A member's User Agent announces itself to a room host.
pub const HELLO: u8 = 0x04;

/// Ask a room host to add a member.
pub const ADD_MEMBER: u8 = 0x06;

/// Ask a room host to remove a member.
pub const REMOVE_MEMBER: u8 = 0x07;

/// A member leaves.
pub const LEAVE: u8 = 0x08;

/// A room host reports a membership change.
pub const MEMBER_UPDATE: u8 = 0x09;

/// A member posts a message to the room host.
pub const POST: u8 = 0x0A;

/// An ordered message from the room host.
pub const MSG: u8 = 0x0B;

/// Cumulative acknowledgement of ordered messages.
pub const ACK: u8 = 0x0C;

/// Ask a room host for messages after a sequence number.
pub const HISTORY_REQ: u8 = 0x0D;

/// The room host's answer to `HISTORY_REQ`.
pub const HISTORY_RESP: u8 = 0x0E;

/// Reserved: the room moved to another host.
pub const HOST_MOVED: u8 = 0x0F;

/// A client announces itself to its own User Agent.
pub const CLIENT_ATTACH: u8 = 0x10;

/// The User Agent's answer to `CLIENT_ATTACH`.
pub const CLIENT_ATTACH_ACK: u8 = 0x11;

/// Reserved: join a media session.
pub const MEDIA_JOIN: u8 = 0x20;

/// Reserved: leave a media session.
pub const MEDIA_LEAVE: u8 = 0x21;

/// Reserved: one media frame.
pub const MEDIA_FRAME: u8 = 0x22;

/// Reserved: offer a blob.
pub const BLOB_OFFER: u8 = 0x30;

/// Reserved: one chunk of a blob.
pub const BLOB_CHUNK: u8 = 0x31;

/// Reserved: acknowledge a blob chunk.
pub const BLOB_ACK: u8 = 0x32;

/// Reserved: refuse a blob chunk.
pub const BLOB_NACK: u8 = 0x33;

/// A raw text frame for exercising the pipe.
pub const DEV_TEXT: u8 = 0xF0;

/// The name of a message type, `UNKNOWN` for a type outside the protocol.
pub open spec fn name_of(t: u8) -> Seq<char> {
    match t {
        0x01 => "OPEN_ROOM"@,
        0x02 => "ROOM_CREATED"@,
        0x03 => "INVITE"@,
        0x04 => "HELLO"@,
        0x06 => "ADD_MEMBER"@,
        0x07 => "REMOVE_MEMBER"@,
        0x08 => "LEAVE"@,
        0x09 => "MEMBER_UPDATE"@,
        0x0A => "POST"@,
        0x0B => "MSG"@,
        0x0C => "ACK"@,
        0x0D => "HISTORY_REQ"@,
        0x0E => "HISTORY_RESP"@,
        0x0F => "HOST_MOVED"@,
        0x10 => "CLIENT_ATTACH"@,
        0x11 => "CLIENT_ATTACH_ACK"@,
        0x20 => "MEDIA_JOIN"@,
        0x21 => "MEDIA_LEAVE"@,
        0x22 => "MEDIA_FRAME"@,
        0x30 => "BLOB_OFFER"@,
        0x31 => "BLOB_CHUNK"@,
        0x32 => "BLOB_ACK"@,
        0x33 => "BLOB_NACK"@,
        0xF0 => "DEV_TEXT"@,
        _ => "UNKNOWN"@,
    }
}

/// Whether `t` is a message type of the protocol.
pub open spec fn is_known(t: u8) -> bool {
    ||| 0x01 <= t <= 0x04
    ||| 0x06 <= t <= 0x11
    ||| 0x20 <= t <= 0x22
    ||| 0x30 <= t <= 0x33
    ||| t == DEV_TEXT
}

/// Human-readable name of a message type, for the log.
pub fn name(t: u8) -> (r: &'static str)
    ensures
        r@ == name_of(t),
{
    match t {
        OPEN_ROOM => "OPEN_ROOM",
        ROOM_CREATED => "ROOM_CREATED",
        INVITE => "INVITE",
        HELLO => "HELLO",
        ADD_MEMBER => "ADD_MEMBER",
        REMOVE_MEMBER => "REMOVE_MEMBER",
        LEAVE => "LEAVE",
        MEMBER_UPDATE => "MEMBER_UPDATE",
        POST => "POST",
        MSG => "MSG",
        ACK => "ACK",
        HISTORY_REQ => "HISTORY_REQ",
        HISTORY_RESP => "HISTORY_RESP",
        HOST_MOVED => "HOST_MOVED",
        CLIENT_ATTACH => "CLIENT_ATTACH",
        CLIENT_ATTACH_ACK => "CLIENT_ATTACH_ACK",
        MEDIA_JOIN => "MEDIA_JOIN",
        MEDIA_LEAVE => "MEDIA_LEAVE",
        MEDIA_FRAME => "MEDIA_FRAME",
        BLOB_OFFER => "BLOB_OFFER",
        BLOB_CHUNK => "BLOB_CHUNK",
        BLOB_ACK => "BLOB_ACK",
        BLOB_NACK => "BLOB_NACK",
        DEV_TEXT => "DEV_TEXT",
        _ => "UNKNOWN",
    }
}

/// Whether `t` is a message type of the protocol.
pub fn known(t: u8) -> (r: bool)
    ensures
        r == is_known(t),
{
    (0x01 <= t && t <= 0x04) || (0x06 <= t && t <= 0x11) || (0x20 <= t && t <= 0x22) || (0x30 <= t
        && t <= 0x33) || t == DEV_TEXT
}

} // verus!
