//! The daemon's operations: what this app sends to it.

use crate::bytes::{be_bytes, push_bytes, push_str, str_bytes, u16_be, Uuid};
use crate::codec::{encode_envelope, envelope_bytes};
use crate::snapshot::APP_ALIAS;
use crate::state::{Outbound, OutboundModel};
use vstd::prelude::*;

verus! {

/// The protocol that this app registers under.
pub const APP_PROTOCOL: &'static str = "application/pnet-chat";

/// Register this app.
pub const OP_REGISTER: u8 = 0x00;

/// Ask for what this app may see.
pub const OP_GET_DATA: u8 = 0x02;

/// Send a payload to an app on a device.
pub const OP_SEND: u8 = 0x03;

/// A payload that the daemon received for this app.
pub const OP_PUSH: u8 = 0x04;

/// `op, alias:str, push_port:u16, protocol:str`.
pub open spec fn register_bytes(push_port: u16) -> Seq<u8> {
    seq![OP_REGISTER] + str_bytes(APP_ALIAS@) + be_bytes(push_port as nat, 2) + str_bytes(
        APP_PROTOCOL@,
    )
}

/// Build a registration.
pub fn build_register(push_port: u16) -> (r: Vec<u8>)
    ensures
        r@ == register_bytes(push_port),
{
    let mut buf: Vec<u8> = Vec::new();
    buf.push(OP_REGISTER);
    push_str(&mut buf, APP_ALIAS);
    push_bytes(&mut buf, &u16_be(push_port));
    push_str(&mut buf, APP_PROTOCOL);
    assert(buf@ =~= register_bytes(push_port));
    buf
}

/// Build a get-data request: `op, token:16`.
pub fn build_get_data(token: &Uuid) -> (r: Vec<u8>)
    ensures
        r@ == seq![OP_GET_DATA] + token@,
{
    let mut buf: Vec<u8> = Vec::new();
    buf.push(OP_GET_DATA);
    push_bytes(&mut buf, token.as_slice());
    assert(buf@ =~= seq![OP_GET_DATA] + token@);
    buf
}

/// `op, token:16, dest_device, dest_app_id:16, payload`.
pub open spec fn send_bytes(
    token: Uuid,
    dest_device: Seq<u8>,
    dest_app: Uuid,
    payload: Seq<u8>,
) -> Seq<u8> {
    seq![OP_SEND] + token@ + dest_device + dest_app@ + payload
}

/// Build a send request.
pub fn build_send(
    token: &Uuid,
    dest_device_uuid: &[u8],
    dest_app_id: &Uuid,
    payload: &[u8],
) -> (r: Vec<u8>)
    ensures
        r@ == send_bytes(*token, dest_device_uuid@, *dest_app_id, payload@),
{
    let mut buf: Vec<u8> = Vec::new();
    buf.push(OP_SEND);
    push_bytes(&mut buf, token.as_slice());
    push_bytes(&mut buf, dest_device_uuid);
    push_bytes(&mut buf, dest_app_id.as_slice());
    push_bytes(&mut buf, payload);
    assert(buf@ =~= send_bytes(*token, dest_device_uuid@, *dest_app_id, payload@));
    buf
}

/// The packet that carries a frame.
pub open spec fn packet_of(token: Uuid, o: OutboundModel) -> Seq<u8> {
    send_bytes(
        token,
        o.dest_device@,
        o.dest_app,
        envelope_bytes(o.msg_type, o.room_id, o.body),
    )
}

/// Build the packet that carries a frame.
pub fn frame_packet(token: &Uuid, o: &Outbound) -> (r: Vec<u8>)
    ensures
        r@ == packet_of(*token, o@),
{
    let payload = encode_envelope(o.msg_type, &o.room_id, o.body.as_slice());
    build_send(token, o.dest_device.as_slice(), &o.dest_app, payload.as_slice())
}

} // verus!
