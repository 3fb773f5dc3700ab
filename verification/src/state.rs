//! What a node knows: its identity, the users it can see, and its rooms.

use crate::bytes::Uuid;
use crate::text::{hex_chars, uuid_of_hex};
use crate::uuid::{key, uuid_key, UuidMap};
use crate::views::views;
use vstd::prelude::*;

verus! {

// ── Identity and topology ────────────────────────────────────────────────────

/// The local app's own registration, as the daemon reports it.
pub struct AppInfo {
    /// Lowercase hex of the 16-byte app id.
    pub id_hex: String,
    pub alias: String,
    pub approved: bool,
}

/// The model of `AppInfo`.
pub struct AppInfoModel {
    pub id_hex: Seq<char>,
    pub alias: Seq<char>,
    pub approved: bool,
}

impl View for AppInfo {
    type V = AppInfoModel;

    open spec fn view(&self) -> AppInfoModel {
        AppInfoModel { id_hex: self.id_hex@, alias: self.alias@, approved: self.approved }
    }
}

/// One app instance that a frame can be sent to.
pub struct Destination {
    pub label: String,
    /// The user that the device belongs to.
    pub user_uuid_hex: String,
    pub device_uuid: Vec<u8>,
    /// "SG" or "DG".
    pub grade: String,
    pub sg_rank: u8,
    /// True if the device belongs to our own user (rather than a contact).
    pub own_user: bool,
    pub app_id_hex: String,
    pub app_id: Uuid,
}

/// The model of `Destination`.
pub struct DestinationModel {
    pub label: Seq<char>,
    pub user_uuid_hex: Seq<char>,
    pub device_uuid: Seq<u8>,
    pub grade: Seq<char>,
    pub sg_rank: u8,
    pub own_user: bool,
    pub app_id_hex: Seq<char>,
    pub app_id: Uuid,
}

impl View for Destination {
    type V = DestinationModel;

    open spec fn view(&self) -> DestinationModel {
        DestinationModel {
            label: self.label@,
            user_uuid_hex: self.user_uuid_hex@,
            device_uuid: self.device_uuid@,
            grade: self.grade@,
            sg_rank: self.sg_rank,
            own_user: self.own_user,
            app_id_hex: self.app_id_hex@,
            app_id: self.app_id,
        }
    }
}

/// This node's role for its own user.
#[derive(Clone, Copy, Debug, PartialEq, Eq, Structural)]
pub enum Role {
    /// The user's top-ranked SG: the acting User Agent.
    UserAgent,
    /// An SG, but not the top-ranked one.
    SgStandby,
    /// A DG: delegates to its own user's User Agent.
    DataGuest,
    /// Not yet known.
    Unknown,
}

/// The local user's User Agent. Without an `app_id` the device is known but its
/// app has not shown up in our snapshot yet.
pub struct UaRef {
    pub device_uuid_hex: String,
    pub device_uuid: Uuid,
    pub label: String,
    pub sg_rank: u8,
    pub app_id_hex: Option<String>,
    pub app_id: Option<Uuid>,
    /// True when this User Agent is the local node itself.
    pub is_self: bool,
}

/// The model of `UaRef`.
pub struct UaRefModel {
    pub device_uuid_hex: Seq<char>,
    pub device_uuid: Uuid,
    pub label: Seq<char>,
    pub sg_rank: u8,
    pub app_id_hex: Option<Seq<char>>,
    pub app_id: Option<Uuid>,
    pub is_self: bool,
}

impl View for UaRef {
    type V = UaRefModel;

    open spec fn view(&self) -> UaRefModel {
        UaRefModel {
            device_uuid_hex: self.device_uuid_hex@,
            device_uuid: self.device_uuid,
            label: self.label@,
            sg_rank: self.sg_rank,
            app_id_hex: match self.app_id_hex {
                Some(h) => Some(h@),
                None => None,
            },
            app_id: self.app_id,
            is_self: self.is_self,
        }
    }
}

/// An SG device: its identifier, its rank, and the chat app on it if visible.
pub type SgEntry = (Uuid, u8, Option<Uuid>);

/// One user's SG devices, from which that user's User Agent is resolved.
pub struct UserDir {
    pub alias: String,
    pub own: bool,
    pub sgs: Vec<SgEntry>,
}

/// The model of `UserDir`.
pub struct UserDirModel {
    pub alias: Seq<char>,
    pub own: bool,
    pub sgs: Seq<SgEntry>,
}

impl View for UserDir {
    type V = UserDirModel;

    open spec fn view(&self) -> UserDirModel {
        UserDirModel { alias: self.alias@, own: self.own, sgs: self.sgs@ }
    }
}

/// Whether an SG of rank `r1` and identifier `d1` comes before one of rank `r2`
/// and identifier `d2`: lower rank first, ties broken by identifier.
pub open spec fn sg_before(r1: u8, d1: Uuid, r2: u8, d2: Uuid) -> bool {
    r1 < r2 || (r1 == r2 && key(d1) < key(d2))
}

/// The first of the foremost SGs among those that run the app.
pub open spec fn best_sg(sgs: Seq<SgEntry>) -> Option<SgEntry>
    decreases sgs.len(),
{
    if sgs.len() == 0 {
        None
    } else {
        let front = best_sg(sgs.drop_last());
        let last = sgs.last();
        if last.2 is None {
            front
        } else {
            match front {
                Some(b) => if sg_before(last.1, last.0, b.1, b.0) {
                    Some(last)
                } else {
                    front
                },
                None => Some(last),
            }
        }
    }
}

/// A user's User Agent: the device and the app on it.
pub open spec fn ua_of(sgs: Seq<SgEntry>) -> Option<(Uuid, Uuid)> {
    match best_sg(sgs) {
        Some((d, _, Some(a))) => Some((d, a)),
        _ => None,
    }
}

/// The User Agent of `user`, if the directory lists one.
pub open spec fn reach(directory: Map<Uuid, UserDirModel>, user: Uuid) -> Option<(Uuid, Uuid)> {
    if directory.contains_key(user) {
        ua_of(directory[user].sgs)
    } else {
        None
    }
}

/// Whether one SG comes before another.
pub fn sg_precedes(r1: u8, d1: &Uuid, r2: u8, d2: &Uuid) -> (r: bool)
    ensures
        r == sg_before(r1, *d1, r2, *d2),
{
    r1 < r2 || (r1 == r2 && uuid_key(d1) < uuid_key(d2))
}

impl UserDir {
    /// Resolve this user's User Agent: the lowest-ranked SG that runs the app,
    /// ties broken by device identifier.
    pub fn resolve_ua(&self) -> (r: Option<(Uuid, Uuid)>)
        ensures
            r == ua_of(self.sgs@),
    {
        let mut best: Option<SgEntry> = None;
        let mut i: usize = 0;
        while i < self.sgs.len()
            invariant
                i <= self.sgs@.len(),
                best == best_sg(self.sgs@.take(i as int)),
            decreases self.sgs@.len() - i,
        {
            let sg = self.sgs[i];
            assert(self.sgs@.take(i + 1).drop_last() =~= self.sgs@.take(i as int));
            if sg.2.is_some() {
                let better = match best {
                    Some(b) => sg_precedes(sg.1, &sg.0, b.1, &b.0),
                    None => true,
                };
                if better {
                    best = Some(sg);
                }
            }
            i += 1;
        }
        assert(self.sgs@.take(i as int) =~= self.sgs@);
        match best {
            Some((d, _, Some(a))) => Some((d, a)),
            _ => None,
        }
    }
}

/// Who a sending app belongs to, by our snapshot.
pub struct AppOwner {
    pub user_uuid: Uuid,
    pub device_uuid: Uuid,
    pub label: String,
    pub own_user: bool,
}

/// The model of `AppOwner`.
pub struct AppOwnerModel {
    pub user_uuid: Uuid,
    pub device_uuid: Uuid,
    pub label: Seq<char>,
    pub own_user: bool,
}

impl View for AppOwner {
    type V = AppOwnerModel;

    open spec fn view(&self) -> AppOwnerModel {
        AppOwnerModel {
            user_uuid: self.user_uuid,
            device_uuid: self.device_uuid,
            label: self.label@,
            own_user: self.own_user,
        }
    }
}

impl Clone for AppOwner {
    fn clone(&self) -> (r: Self)
        ensures
            r@ == self@,
    {
        AppOwner {
            user_uuid: self.user_uuid,
            device_uuid: self.device_uuid,
            label: self.label.clone(),
            own_user: self.own_user,
        }
    }
}

/// A client currently attached to this node.
pub struct AttachedClient {
    pub device_uuid_hex: String,
    pub app_id_hex: String,
    pub label: String,
    pub last_seen: u64,
}

/// The model of `AttachedClient`.
pub struct AttachedClientModel {
    pub device_uuid_hex: Seq<char>,
    pub app_id_hex: Seq<char>,
    pub label: Seq<char>,
    pub last_seen: u64,
}

impl View for AttachedClient {
    type V = AttachedClientModel;

    open spec fn view(&self) -> AttachedClientModel {
        AttachedClientModel {
            device_uuid_hex: self.device_uuid_hex@,
            app_id_hex: self.app_id_hex@,
            label: self.label@,
            last_seen: self.last_seen,
        }
    }
}

/// This node's delegation to its User Agent.
#[derive(Clone, Copy, Debug, PartialEq, Eq)]
pub struct AttachState {
    /// When a `CLIENT_ATTACH` was last sent.
    pub last_sent: Option<u64>,
    /// When the User Agent last acknowledged one.
    pub last_ack: Option<u64>,
}

// ── Rooms ────────────────────────────────────────────────────────────────────

/// A room member; members are users, not devices.
pub struct Member {
    pub user_uuid_hex: String,
    pub user_uuid: Uuid,
    pub alias: String,
    /// On the room host: whether the member's User Agent has announced itself.
    pub present: bool,
}

/// The model of `Member`.
pub struct MemberModel {
    pub user_uuid_hex: Seq<char>,
    pub user_uuid: Uuid,
    pub alias: Seq<char>,
    pub present: bool,
}

impl View for Member {
    type V = MemberModel;

    open spec fn view(&self) -> MemberModel {
        MemberModel {
            user_uuid_hex: self.user_uuid_hex@,
            user_uuid: self.user_uuid,
            alias: self.alias@,
            present: self.present,
        }
    }
}

impl Clone for Member {
    fn clone(&self) -> (r: Self)
        ensures
            r@ == self@,
    {
        Member {
            user_uuid_hex: self.user_uuid_hex.clone(),
            user_uuid: self.user_uuid,
            alias: self.alias.clone(),
            present: self.present,
        }
    }
}

/// One ordered chat message. The room host assigns `seq`.
pub struct ChatMsg {
    pub seq: u64,
    pub sender_user_hex: String,
    pub sender_alias: String,
    pub sender_is_self: bool,
    pub ts_ms: u64,
    pub text: String,
}

/// The model of `ChatMsg`.
pub struct ChatMsgModel {
    pub seq: u64,
    pub sender_user_hex: Seq<char>,
    pub sender_alias: Seq<char>,
    pub sender_is_self: bool,
    pub ts_ms: u64,
    pub text: Seq<char>,
}

impl View for ChatMsg {
    type V = ChatMsgModel;

    open spec fn view(&self) -> ChatMsgModel {
        ChatMsgModel {
            seq: self.seq,
            sender_user_hex: self.sender_user_hex@,
            sender_alias: self.sender_alias@,
            sender_is_self: self.sender_is_self,
            ts_ms: self.ts_ms,
            text: self.text@,
        }
    }
}

/// One room as this node knows it. The room host (RH) holds the authoritative
/// copy; a member's User Agent holds its own with `is_rh == false`.
pub struct RoomState {
    pub room_id_hex: String,
    pub room_id: Uuid,
    pub name: String,
    pub host_user_hex: String,
    pub host_user: Uuid,
    pub rh_device_hex: String,
    /// The device of the room host; for the host itself, its own.
    pub rh_device: Uuid,
    pub rh_app_id: Uuid,
    /// True when this node is the room host.
    pub is_rh: bool,
    pub members: Vec<Member>,
    pub retention_mode: u8,
    pub join_history_mode: u8,
    /// Member side: when we last sent `HELLO` to the room host.
    pub hello_sent: Option<u64>,
    /// The ordered history.
    pub messages: Vec<ChatMsg>,
    /// Host side: the next sequence number to assign.
    pub next_seq: u64,
    /// The highest sequence number applied.
    pub last_seq: u64,
    /// Host side: per member, the highest acknowledged sequence number.
    pub member_acks: UuidMap<u64>,
}

/// The model of `RoomState`.
#[verifier::ext_equal]
pub struct RoomModel {
    pub room_id_hex: Seq<char>,
    pub room_id: Uuid,
    pub name: Seq<char>,
    pub host_user_hex: Seq<char>,
    pub host_user: Uuid,
    pub rh_device_hex: Seq<char>,
    pub rh_device: Uuid,
    pub rh_app_id: Uuid,
    pub is_rh: bool,
    pub members: Seq<MemberModel>,
    pub retention_mode: u8,
    pub join_history_mode: u8,
    pub hello_sent: Option<u64>,
    pub messages: Seq<ChatMsgModel>,
    pub next_seq: u64,
    pub last_seq: u64,
    pub member_acks: Map<Uuid, u64>,
}

impl View for RoomState {
    type V = RoomModel;

    open spec fn view(&self) -> RoomModel {
        RoomModel {
            room_id_hex: self.room_id_hex@,
            room_id: self.room_id,
            name: self.name@,
            host_user_hex: self.host_user_hex@,
            host_user: self.host_user,
            rh_device_hex: self.rh_device_hex@,
            rh_device: self.rh_device,
            rh_app_id: self.rh_app_id,
            is_rh: self.is_rh,
            members: views(self.members@),
            retention_mode: self.retention_mode,
            join_history_mode: self.join_history_mode,
            hello_sent: self.hello_sent,
            messages: views(self.messages@),
            next_seq: self.next_seq,
            last_seq: self.last_seq,
            member_acks: self.member_acks@,
        }
    }
}

/// Whether some message of the history has sequence number `seq`.
pub open spec fn has_seq(ms: Seq<ChatMsgModel>, seq: u64) -> bool {
    exists|i: int| 0 <= i < ms.len() && (#[trigger] ms[i]).seq == seq
}

/// The highest sequence number of a history, 0 when it is empty.
pub open spec fn highest_seq(ms: Seq<ChatMsgModel>) -> u64
    decreases ms.len(),
{
    if ms.len() == 0 {
        0
    } else {
        let front = highest_seq(ms.drop_last());
        if ms.last().seq > front {
            ms.last().seq
        } else {
            front
        }
    }
}

/// Whether a history is in strictly ascending order of sequence number.
pub open spec fn ascending(ms: Seq<ChatMsgModel>) -> bool {
    forall|i: int, j: int| 0 <= i < j < ms.len() ==> (#[trigger] ms[i]).seq < (#[trigger] ms[j]).seq
}

/// Whether the members' identifiers are rendered as they are.
pub open spec fn members_rendered(members: Seq<MemberModel>) -> bool {
    forall|i: int|
        0 <= i < members.len() ==> (#[trigger] members[i]).user_uuid_hex == hex_chars(
            members[i].user_uuid@,
        )
}

/// Whether every sender's identifier can be read back from its rendering.
pub open spec fn senders_readable(ms: Seq<ChatMsgModel>) -> bool {
    forall|i: int| 0 <= i < ms.len() ==> uuid_of_hex((#[trigger] ms[i]).sender_user_hex) is Some
}

impl RoomModel {
    /// Identifiers are rendered as they are, the history is in order, its
    /// highest number is remembered, and every number that was handed out is in
    /// it.
    pub open spec fn wf(self) -> bool {
        &&& self.room_id_hex == hex_chars(self.room_id@)
        &&& self.host_user_hex == hex_chars(self.host_user@)
        &&& self.rh_device_hex == hex_chars(self.rh_device@)
        &&& members_rendered(self.members)
        &&& senders_readable(self.messages)
        &&& ascending(self.messages)
        &&& self.last_seq == highest_seq(self.messages)
        &&& self.next_seq >= 1
        &&& forall|s: u64| 1 <= s < self.next_seq ==> #[trigger] has_seq(self.messages, s)
    }
}

// ── Log and outgoing frames ──────────────────────────────────────────────────

/// One line of the frame log.
pub struct LogEntry {
    pub sender: String,
    /// The message type, by name.
    pub kind: String,
    /// What became of the frame.
    pub detail: String,
    pub timestamp: u64,
}

/// The model of `LogEntry`.
pub struct LogEntryModel {
    pub sender: Seq<char>,
    pub kind: Seq<char>,
    pub detail: Seq<char>,
    pub timestamp: u64,
}

impl View for LogEntry {
    type V = LogEntryModel;

    open spec fn view(&self) -> LogEntryModel {
        LogEntryModel {
            sender: self.sender@,
            kind: self.kind@,
            detail: self.detail@,
            timestamp: self.timestamp,
        }
    }
}

/// One frame to send to an app on a device.
pub struct Outbound {
    pub dest_device: Uuid,
    pub dest_app: Uuid,
    pub msg_type: u8,
    pub room_id: Uuid,
    pub body: Vec<u8>,
}

/// The model of `Outbound`.
pub struct OutboundModel {
    pub dest_device: Uuid,
    pub dest_app: Uuid,
    pub msg_type: u8,
    pub room_id: Uuid,
    pub body: Seq<u8>,
}

impl View for Outbound {
    type V = OutboundModel;

    open spec fn view(&self) -> OutboundModel {
        OutboundModel {
            dest_device: self.dest_device,
            dest_app: self.dest_app,
            msg_type: self.msg_type,
            room_id: self.room_id,
            body: self.body@,
        }
    }
}

// ── The node ─────────────────────────────────────────────────────────────────

/// Everything a node knows.
pub struct Inner {
    pub token: Option<Uuid>,
    pub app_info: Option<AppInfo>,
    pub destinations: Vec<Destination>,
    /// Who each sending app belongs to.
    pub app_owners: UuidMap<AppOwner>,
    pub own_user_uuid: Option<Uuid>,
    pub local_device: Option<Uuid>,
    pub local_app_id: Option<Uuid>,
    pub role: Role,
    /// Our user's User Agent.
    pub ua: Option<UaRef>,
    /// Clients attached to us, when we are a User Agent.
    pub attached_clients: Vec<AttachedClient>,
    pub attach: AttachState,
    /// All users we can see, by user.
    pub directory: UuidMap<UserDir>,
    /// All rooms we know, by room.
    pub rooms: UuidMap<RoomState>,
    pub log: Vec<LogEntry>,
    pub last_fetch_ok: Option<u64>,
}

/// The model of `Inner`.
#[verifier::ext_equal]
pub struct NodeModel {
    pub token: Option<Uuid>,
    pub app_info: Option<AppInfoModel>,
    pub destinations: Seq<DestinationModel>,
    pub app_owners: Map<Uuid, AppOwnerModel>,
    pub own_user_uuid: Option<Uuid>,
    pub local_device: Option<Uuid>,
    pub local_app_id: Option<Uuid>,
    pub role: Role,
    pub ua: Option<UaRefModel>,
    pub attached_clients: Seq<AttachedClientModel>,
    pub attach: AttachState,
    pub directory: Map<Uuid, UserDirModel>,
    pub rooms: Map<Uuid, RoomModel>,
    pub log: Seq<LogEntryModel>,
    pub last_fetch_ok: Option<u64>,
}

impl View for Inner {
    type V = NodeModel;

    open spec fn view(&self) -> NodeModel {
        NodeModel {
            token: self.token,
            app_info: match self.app_info {
                Some(a) => Some(a@),
                None => None,
            },
            destinations: views(self.destinations@),
            app_owners: self.app_owners@,
            own_user_uuid: self.own_user_uuid,
            local_device: self.local_device,
            local_app_id: self.local_app_id,
            role: self.role,
            ua: match self.ua {
                Some(u) => Some(u@),
                None => None,
            },
            attached_clients: views(self.attached_clients@),
            attach: self.attach,
            directory: self.directory@,
            rooms: self.rooms@,
            log: views(self.log@),
            last_fetch_ok: self.last_fetch_ok,
        }
    }
}

impl NodeModel {
    /// Every room is well formed and filed under its own identifier.
    pub open spec fn wf(self) -> bool {
        forall|id: Uuid| #[trigger]
            self.rooms.contains_key(id) ==> self.rooms[id].wf() && self.rooms[id].room_id == id
    }

    /// This node with one room replaced or added.
    pub open spec fn with_room(self, id: Uuid, room: RoomModel) -> NodeModel {
        NodeModel { rooms: self.rooms.insert(id, room), ..self }
    }
}

/// A node that holds a token and knows nothing else.
pub open spec fn fresh_node(token: Option<Uuid>) -> NodeModel {
    NodeModel {
        token,
        app_info: None,
        destinations: Seq::empty(),
        app_owners: Map::empty(),
        own_user_uuid: None,
        local_device: None,
        local_app_id: None,
        role: Role::Unknown,
        ua: None,
        attached_clients: Seq::empty(),
        attach: AttachState { last_sent: None, last_ack: None },
        directory: Map::empty(),
        rooms: Map::empty(),
        log: Seq::empty(),
        last_fetch_ok: None,
    }
}

impl Inner {
    /// A node that holds a token and knows nothing else.
    pub fn new(token: Option<Uuid>) -> (r: Self)
        ensures
            r@ == fresh_node(token),
            r@.wf(),
    {
        let r = Inner {
            token,
            app_info: None,
            destinations: Vec::new(),
            app_owners: UuidMap::new(),
            own_user_uuid: None,
            local_device: None,
            local_app_id: None,
            role: Role::Unknown,
            ua: None,
            attached_clients: Vec::new(),
            attach: AttachState { last_sent: None, last_ack: None },
            directory: UuidMap::new(),
            rooms: UuidMap::new(),
            log: Vec::new(),
            last_fetch_ok: None,
        };
        assert(r@ =~= fresh_node(token));
        r
    }
}

} // verus!
