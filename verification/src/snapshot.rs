//! The daemon's snapshot of what this app may see: who we are, our own devices
//! and our contacts' devices, and what follows from it for this node.

use crate::bytes::{bytes_at, lemma_many_stops, many_at, read_slice, read_str, read_u8, read_uuid};
use crate::bytes::{str_at, u8_at, uuid_at, Uuid};
use crate::state::{sg_before, sg_precedes, AppInfo, AppInfoModel, AppOwner, AppOwnerModel};
use crate::state::{Destination, DestinationModel, Inner, NodeModel, Role, SgEntry, UaRef};
use crate::state::{UaRefModel, UserDir, UserDirModel};
use crate::text::{hex, hex_chars};
use crate::uuid::{uuid_eq, UuidMap};
use crate::views::{lemma_views_take, views};
use vstd::prelude::*;
use vstd::string::StringExecFns;

verus! {

/// The alias that every install of this app registers under. Identifiers are
/// minted per registration, so discovery goes by alias.
pub const APP_ALIAS: &'static str = "pnet-chat";

/// The grade byte of an SG device; any other grade is a DG.
pub const GRADE_SG: u8 = 1;

/// The status byte of a successful reply.
pub const STATUS_OK: u8 = 0x00;

// ── The parsed reply ─────────────────────────────────────────────────────────

/// An app on a device.
pub struct AppEntry {
    pub id: Uuid,
    pub alias: String,
}

/// The model of `AppEntry`.
pub struct AppEntryModel {
    pub id: Uuid,
    pub alias: Seq<char>,
}

impl View for AppEntry {
    type V = AppEntryModel;

    open spec fn view(&self) -> AppEntryModel {
        AppEntryModel { id: self.id, alias: self.alias@ }
    }
}

/// A device and the apps on it.
pub struct DeviceEntry {
    pub id: Uuid,
    pub alias: String,
    pub grade: u8,
    pub sg_rank: u8,
    pub apps: Vec<AppEntry>,
}

/// The model of `DeviceEntry`.
pub struct DeviceEntryModel {
    pub id: Uuid,
    pub alias: Seq<char>,
    pub grade: u8,
    pub sg_rank: u8,
    pub apps: Seq<AppEntryModel>,
}

impl View for DeviceEntry {
    type V = DeviceEntryModel;

    open spec fn view(&self) -> DeviceEntryModel {
        DeviceEntryModel {
            id: self.id,
            alias: self.alias@,
            grade: self.grade,
            sg_rank: self.sg_rank,
            apps: views(self.apps@),
        }
    }
}

/// A contact and their devices.
pub struct ContactEntry {
    pub alias: String,
    pub id: Uuid,
    pub devices: Vec<DeviceEntry>,
}

/// The model of `ContactEntry`.
pub struct ContactEntryModel {
    pub alias: Seq<char>,
    pub id: Uuid,
    pub devices: Seq<DeviceEntryModel>,
}

impl View for ContactEntry {
    type V = ContactEntryModel;

    open spec fn view(&self) -> ContactEntryModel {
        ContactEntryModel { alias: self.alias@, id: self.id, devices: views(self.devices@) }
    }
}

/// What a reply says about this app itself.
pub struct Header {
    pub app_id: Uuid,
    pub alias: String,
    pub approved: bool,
    pub local_device: Uuid,
}

/// The model of `Header`.
pub struct HeaderModel {
    pub app_id: Uuid,
    pub alias: Seq<char>,
    pub approved: bool,
    pub local_device: Uuid,
}

impl View for Header {
    type V = HeaderModel;

    open spec fn view(&self) -> HeaderModel {
        HeaderModel {
            app_id: self.app_id,
            alias: self.alias@,
            approved: self.approved,
            local_device: self.local_device,
        }
    }
}

/// What a reply says about our user and our contacts.
pub struct Topology {
    pub owner_alias: String,
    pub owner: Uuid,
    pub devices: Vec<DeviceEntry>,
    pub contacts: Vec<ContactEntry>,
}

/// The model of `Topology`.
pub struct TopologyModel {
    pub owner_alias: Seq<char>,
    pub owner: Uuid,
    pub devices: Seq<DeviceEntryModel>,
    pub contacts: Seq<ContactEntryModel>,
}

impl View for Topology {
    type V = TopologyModel;

    open spec fn view(&self) -> TopologyModel {
        TopologyModel {
            owner_alias: self.owner_alias@,
            owner: self.owner,
            devices: views(self.devices@),
            contacts: views(self.contacts@),
        }
    }
}

// ── The layout of a reply ────────────────────────────────────────────────────

/// `status:u8, app_id:16, alias:str, ip:4, port:2, approved:u8, token:16,
/// local_device:16`.
pub open spec fn header_at(s: Seq<u8>) -> Option<(HeaderModel, int)> {
    match uuid_at(s, 1) {
        Some((app_id, p)) => match str_at(s, p) {
            Some((alias, q)) => match uuid_at(s, q + 23) {
                Some((local_device, e)) => Some(
                    (HeaderModel { app_id, alias, approved: s[q + 6] != 0, local_device }, e),
                ),
                None => None,
            },
            None => None,
        },
        None => None,
    }
}

/// `id:16, alias:str`, then `extra` bytes that are not kept: seven behind an app
/// of our own (ip, port, approval), none behind a contact's.
pub open spec fn app_at(s: Seq<u8>, p: int, extra: int) -> Option<(AppEntryModel, int)> {
    match uuid_at(s, p) {
        Some((id, q)) => match str_at(s, q) {
            Some((alias, e)) => match bytes_at(s, e, extra) {
                Some((_, f)) => Some((AppEntryModel { id, alias }, f)),
                None => None,
            },
            None => None,
        },
        None => None,
    }
}

/// How an app is read.
pub open spec fn app_item(extra: int) -> spec_fn(Seq<u8>, int) -> Option<(AppEntryModel, int)> {
    |s: Seq<u8>, p: int| app_at(s, p, extra)
}

/// How a host name is read.
pub open spec fn host_item() -> spec_fn(Seq<u8>, int) -> Option<(Seq<char>, int)> {
    |s: Seq<u8>, p: int| str_at(s, p)
}

/// A list with a one-byte count.
pub open spec fn counted_at<T>(
    item: spec_fn(Seq<u8>, int) -> Option<(T, int)>,
    s: Seq<u8>,
    p: int,
) -> Option<(Seq<T>, int)> {
    match u8_at(s, p) {
        Some((n, q)) => many_at(item, s, q, n as nat),
        None => None,
    }
}

/// `id:16, alias:str, grade:u8, sg_rank:u8, hosts:str×N, apps×N`.
pub open spec fn device_at(s: Seq<u8>, p: int, extra: int) -> Option<(DeviceEntryModel, int)> {
    match uuid_at(s, p) {
        Some((id, q)) => match str_at(s, q) {
            Some((alias, e)) => match counted_at(host_item(), s, e + 2) {
                Some((_, h)) => match counted_at(app_item(extra), s, h) {
                    Some((apps, f)) => Some(
                        (DeviceEntryModel { id, alias, grade: s[e], sg_rank: s[e + 1], apps }, f),
                    ),
                    None => None,
                },
                None => None,
            },
            None => None,
        },
        None => None,
    }
}

/// How a device is read.
pub open spec fn device_item(extra: int) -> spec_fn(Seq<u8>, int) -> Option<
    (DeviceEntryModel, int),
> {
    |s: Seq<u8>, p: int| device_at(s, p, extra)
}

/// `alias:str, id:16, devices×N`.
pub open spec fn contact_at(s: Seq<u8>, p: int) -> Option<(ContactEntryModel, int)> {
    match str_at(s, p) {
        Some((alias, q)) => match uuid_at(s, q) {
            Some((id, e)) => match counted_at(device_item(0), s, e) {
                Some((devices, f)) => Some((ContactEntryModel { alias, id, devices }, f)),
                None => None,
            },
            None => None,
        },
        None => None,
    }
}

/// How a contact is read.
pub open spec fn contact_item() -> spec_fn(Seq<u8>, int) -> Option<(ContactEntryModel, int)> {
    |s: Seq<u8>, p: int| contact_at(s, p)
}

/// `owner_alias:str, owner:16, own devices×N, contacts×N`.
pub open spec fn topology_at(s: Seq<u8>, p: int) -> Option<TopologyModel> {
    match str_at(s, p) {
        Some((owner_alias, q)) => match uuid_at(s, q) {
            Some((owner, e)) => match counted_at(device_item(7), s, e) {
                Some((devices, f)) => match counted_at(contact_item(), s, f) {
                    Some((contacts, _)) => Some(
                        TopologyModel { owner_alias, owner, devices, contacts },
                    ),
                    None => None,
                },
                None => None,
            },
            None => None,
        },
        None => None,
    }
}

fn read_header(s: &[u8], pos: &mut usize) -> (r: Option<Header>)
    requires
        *old(pos) == 1,
    ensures
        match header_at(s@) {
            Some((m, e)) => r matches Some(h) && h@ == m && *final(pos) == e,
            None => r is None,
        },
{
    let Some(app_id) = read_uuid(s, pos) else {
        return None;
    };
    let Some(alias) = read_str(s, pos) else {
        return None;
    };
    let Some(_) = read_slice(s, pos, 6) else {
        return None;
    };
    let Some(approved) = read_u8(s, pos) else {
        return None;
    };
    let Some(_) = read_slice(s, pos, 16) else {
        return None;
    };
    let Some(local_device) = read_uuid(s, pos) else {
        return None;
    };
    Some(Header { app_id, alias, approved: approved != 0, local_device })
}

fn read_app(s: &[u8], pos: &mut usize, extra: usize) -> (r: Option<AppEntry>)
    ensures
        match app_at(s@, *old(pos) as int, extra as int) {
            Some((m, e)) => r matches Some(a) && a@ == m && *final(pos) == e,
            None => r is None,
        },
{
    let Some(id) = read_uuid(s, pos) else {
        return None;
    };
    let Some(alias) = read_str(s, pos) else {
        return None;
    };
    let Some(_) = read_slice(s, pos, extra) else {
        return None;
    };
    Some(AppEntry { id, alias })
}

fn read_apps(s: &[u8], pos: &mut usize, extra: usize) -> (r: Option<Vec<AppEntry>>)
    ensures
        match counted_at(app_item(extra as int), s@, *old(pos) as int) {
            Some((m, e)) => r matches Some(a) && views(a@) == m && *final(pos) == e,
            None => r is None,
        },
{
    broadcast use crate::views::group_views;

    let Some(count) = read_u8(s, pos) else {
        return None;
    };
    let ghost start = *pos as int;
    let ghost item = app_item(extra as int);
    let mut out: Vec<AppEntry> = Vec::new();
    let mut i: u8 = 0;
    while i < count
        invariant
            i <= count,
            item == app_item(extra as int),
            many_at(item, s@, start, i as nat) == Some((views(out@), *pos as int)),
            counted_at(item, s@, *old(pos) as int) == many_at(item, s@, start, count as nat),
        decreases count - i,
    {
        broadcast use crate::views::group_views;

        let Some(a) = read_app(s, pos, extra) else {
            proof {
                lemma_many_stops(item, s@, start, (i + 1) as nat, count as nat);
            }
            return None;
        };
        out.push(a);
        i += 1;
    }
    Some(out)
}

fn skip_hosts(s: &[u8], pos: &mut usize) -> (r: bool)
    ensures
        match counted_at(host_item(), s@, *old(pos) as int) {
            Some((_, e)) => r && *final(pos) == e,
            None => !r,
        },
{
    let Some(count) = read_u8(s, pos) else {
        return false;
    };
    let ghost start = *pos as int;
    let ghost mut hosts = Seq::<Seq<char>>::empty();
    let mut i: u8 = 0;
    while i < count
        invariant
            i <= count,
            many_at(host_item(), s@, start, i as nat) == Some((hosts, *pos as int)),
            counted_at(host_item(), s@, *old(pos) as int) == many_at(
                host_item(),
                s@,
                start,
                count as nat,
            ),
        decreases count - i,
    {
        let Some(h) = read_str(s, pos) else {
            proof {
                lemma_many_stops(host_item(), s@, start, (i + 1) as nat, count as nat);
            }
            return false;
        };
        proof {
            hosts = hosts.push(h@);
        }
        i += 1;
    }
    true
}

fn read_device(s: &[u8], pos: &mut usize, extra: usize) -> (r: Option<DeviceEntry>)
    ensures
        match device_at(s@, *old(pos) as int, extra as int) {
            Some((m, e)) => r matches Some(d) && d@ == m && *final(pos) == e,
            None => r is None,
        },
{
    let Some(id) = read_uuid(s, pos) else {
        return None;
    };
    let Some(alias) = read_str(s, pos) else {
        return None;
    };
    let Some(grade) = read_u8(s, pos) else {
        return None;
    };
    let Some(sg_rank) = read_u8(s, pos) else {
        return None;
    };
    if !skip_hosts(s, pos) {
        return None;
    }
    let Some(apps) = read_apps(s, pos, extra) else {
        return None;
    };
    Some(DeviceEntry { id, alias, grade, sg_rank, apps })
}

fn read_devices(s: &[u8], pos: &mut usize, extra: usize) -> (r: Option<Vec<DeviceEntry>>)
    ensures
        match counted_at(device_item(extra as int), s@, *old(pos) as int) {
            Some((m, e)) => r matches Some(d) && views(d@) == m && *final(pos) == e,
            None => r is None,
        },
{
    broadcast use crate::views::group_views;

    let Some(count) = read_u8(s, pos) else {
        return None;
    };
    let ghost start = *pos as int;
    let ghost item = device_item(extra as int);
    let mut out: Vec<DeviceEntry> = Vec::new();
    let mut i: u8 = 0;
    while i < count
        invariant
            i <= count,
            item == device_item(extra as int),
            many_at(item, s@, start, i as nat) == Some((views(out@), *pos as int)),
            counted_at(item, s@, *old(pos) as int) == many_at(item, s@, start, count as nat),
        decreases count - i,
    {
        broadcast use crate::views::group_views;

        let Some(d) = read_device(s, pos, extra) else {
            proof {
                lemma_many_stops(item, s@, start, (i + 1) as nat, count as nat);
            }
            return None;
        };
        out.push(d);
        i += 1;
    }
    Some(out)
}

fn read_contact(s: &[u8], pos: &mut usize) -> (r: Option<ContactEntry>)
    ensures
        match contact_at(s@, *old(pos) as int) {
            Some((m, e)) => r matches Some(c) && c@ == m && *final(pos) == e,
            None => r is None,
        },
{
    let Some(alias) = read_str(s, pos) else {
        return None;
    };
    let Some(id) = read_uuid(s, pos) else {
        return None;
    };
    let Some(devices) = read_devices(s, pos, 0) else {
        return None;
    };
    Some(ContactEntry { alias, id, devices })
}

fn read_contacts(s: &[u8], pos: &mut usize) -> (r: Option<Vec<ContactEntry>>)
    ensures
        match counted_at(contact_item(), s@, *old(pos) as int) {
            Some((m, e)) => r matches Some(c) && views(c@) == m && *final(pos) == e,
            None => r is None,
        },
{
    broadcast use crate::views::group_views;

    let Some(count) = read_u8(s, pos) else {
        return None;
    };
    let ghost start = *pos as int;
    let ghost item = contact_item();
    let mut out: Vec<ContactEntry> = Vec::new();
    let mut i: u8 = 0;
    while i < count
        invariant
            i <= count,
            item == contact_item(),
            many_at(item, s@, start, i as nat) == Some((views(out@), *pos as int)),
            counted_at(item, s@, *old(pos) as int) == many_at(item, s@, start, count as nat),
        decreases count - i,
    {
        broadcast use crate::views::group_views;

        let Some(c) = read_contact(s, pos) else {
            proof {
                lemma_many_stops(item, s@, start, (i + 1) as nat, count as nat);
            }
            return None;
        };
        out.push(c);
        i += 1;
    }
    Some(out)
}

fn read_topology(s: &[u8], pos: &mut usize) -> (r: Option<Topology>)
    ensures
        match topology_at(s@, *old(pos) as int) {
            Some(m) => r matches Some(t) && t@ == m,
            None => r is None,
        },
{
    let Some(owner_alias) = read_str(s, pos) else {
        return None;
    };
    let Some(owner) = read_uuid(s, pos) else {
        return None;
    };
    let Some(devices) = read_devices(s, pos, 7) else {
        return None;
    };
    let Some(contacts) = read_contacts(s, pos) else {
        return None;
    };
    Some(Topology { owner_alias, owner, devices, contacts })
}

// ── What follows from a reply ────────────────────────────────────────────────

/// The name of a device's grade.
pub open spec fn grade_name(grade: u8) -> Seq<char> {
    if grade == GRADE_SG {
        "SG"@
    } else {
        "DG"@
    }
}

/// Whose devices are being looked at.
pub struct UserView {
    pub user: Uuid,
    pub own: bool,
    /// What the labels of this user's apps start with.
    pub prefix: Seq<char>,
}

/// Our own user.
pub open spec fn own_view(t: TopologyModel) -> UserView {
    UserView { user: t.owner, own: true, prefix: ""@ }
}

/// A contact.
pub open spec fn contact_view(c: ContactEntryModel) -> UserView {
    UserView { user: c.id, own: false, prefix: c.alias + " / "@ }
}

/// `device / app`, behind the user's prefix.
pub open spec fn app_label(u: UserView, d: DeviceEntryModel, a: AppEntryModel) -> Seq<char> {
    u.prefix + d.alias + " / "@ + a.alias
}

/// The destination that an app stands for.
pub open spec fn destination_of(
    u: UserView,
    d: DeviceEntryModel,
    a: AppEntryModel,
) -> DestinationModel {
    DestinationModel {
        label: app_label(u, d, a),
        user_uuid_hex: hex_chars(u.user@),
        device_uuid: d.id@,
        grade: grade_name(d.grade),
        sg_rank: d.sg_rank,
        own_user: u.own,
        app_id_hex: hex_chars(a.id@),
        app_id: a.id,
    }
}

/// Who an app belongs to.
pub open spec fn owner_of(u: UserView, d: DeviceEntryModel, a: AppEntryModel) -> AppOwnerModel {
    AppOwnerModel {
        user_uuid: u.user,
        device_uuid: d.id,
        label: app_label(u, d, a),
        own_user: u.own,
    }
}

/// Whether an app is this very client: same device and same app.
pub open spec fn is_this_client(
    h: HeaderModel,
    u: UserView,
    d: DeviceEntryModel,
    a: AppEntryModel,
) -> bool {
    u.own && d.id == h.local_device && a.id == h.app_id
}

/// The destinations on one device: every app but this very client.
pub open spec fn device_destinations(
    h: HeaderModel,
    u: UserView,
    d: DeviceEntryModel,
    apps: Seq<AppEntryModel>,
) -> Seq<DestinationModel>
    decreases apps.len(),
{
    if apps.len() == 0 {
        Seq::empty()
    } else {
        let front = device_destinations(h, u, d, apps.drop_last());
        if is_this_client(h, u, d, apps.last()) {
            front
        } else {
            front.push(destination_of(u, d, apps.last()))
        }
    }
}

/// The destinations of one user, device by device.
pub open spec fn user_destinations(
    h: HeaderModel,
    u: UserView,
    devices: Seq<DeviceEntryModel>,
) -> Seq<DestinationModel>
    decreases devices.len(),
{
    if devices.len() == 0 {
        Seq::empty()
    } else {
        user_destinations(h, u, devices.drop_last()) + device_destinations(
            h,
            u,
            devices.last(),
            devices.last().apps,
        )
    }
}

/// The destinations of all contacts.
pub open spec fn contact_destinations(
    h: HeaderModel,
    contacts: Seq<ContactEntryModel>,
) -> Seq<DestinationModel>
    decreases contacts.len(),
{
    if contacts.len() == 0 {
        Seq::empty()
    } else {
        contact_destinations(h, contacts.drop_last()) + user_destinations(
            h,
            contact_view(contacts.last()),
            contacts.last().devices,
        )
    }
}

/// `owners` extended by the apps of one device, later entries winning.
pub open spec fn with_device_owners(
    owners: Map<Uuid, AppOwnerModel>,
    u: UserView,
    d: DeviceEntryModel,
    apps: Seq<AppEntryModel>,
) -> Map<Uuid, AppOwnerModel>
    decreases apps.len(),
{
    if apps.len() == 0 {
        owners
    } else {
        with_device_owners(owners, u, d, apps.drop_last()).insert(
            apps.last().id,
            owner_of(u, d, apps.last()),
        )
    }
}

/// `owners` extended by the apps of one user.
pub open spec fn with_user_owners(
    owners: Map<Uuid, AppOwnerModel>,
    u: UserView,
    devices: Seq<DeviceEntryModel>,
) -> Map<Uuid, AppOwnerModel>
    decreases devices.len(),
{
    if devices.len() == 0 {
        owners
    } else {
        with_device_owners(
            with_user_owners(owners, u, devices.drop_last()),
            u,
            devices.last(),
            devices.last().apps,
        )
    }
}

/// `owners` extended by the apps of all contacts.
pub open spec fn with_contact_owners(
    owners: Map<Uuid, AppOwnerModel>,
    contacts: Seq<ContactEntryModel>,
) -> Map<Uuid, AppOwnerModel>
    decreases contacts.len(),
{
    if contacts.len() == 0 {
        owners
    } else {
        with_user_owners(
            with_contact_owners(owners, contacts.drop_last()),
            contact_view(contacts.last()),
            contacts.last().devices,
        )
    }
}

/// The first chat app in a list of apps.
pub open spec fn chat_app(apps: Seq<AppEntryModel>) -> Option<Uuid>
    decreases apps.len(),
{
    if apps.len() == 0 {
        None
    } else {
        match chat_app(apps.drop_last()) {
            Some(a) => Some(a),
            None => if apps.last().alias == APP_ALIAS@ {
                Some(apps.last().id)
            } else {
                None
            },
        }
    }
}

/// The SGs among a user's devices.
pub open spec fn sgs_of(devices: Seq<DeviceEntryModel>) -> Seq<SgEntry>
    decreases devices.len(),
{
    if devices.len() == 0 {
        Seq::empty()
    } else {
        let front = sgs_of(devices.drop_last());
        let d = devices.last();
        if d.grade == GRADE_SG {
            front.push((d.id, d.sg_rank, chat_app(d.apps)))
        } else {
            front
        }
    }
}

/// Our own directory entry.
pub open spec fn own_entry(t: TopologyModel) -> UserDirModel {
    UserDirModel { alias: t.owner_alias, own: true, sgs: sgs_of(t.devices) }
}

/// A contact's directory entry.
pub open spec fn contact_entry(c: ContactEntryModel) -> UserDirModel {
    UserDirModel { alias: c.alias, own: false, sgs: sgs_of(c.devices) }
}

/// `directory` extended by the contacts, later entries winning.
pub open spec fn with_contacts(
    directory: Map<Uuid, UserDirModel>,
    contacts: Seq<ContactEntryModel>,
) -> Map<Uuid, UserDirModel>
    decreases contacts.len(),
{
    if contacts.len() == 0 {
        directory
    } else {
        with_contacts(directory, contacts.drop_last()).insert(
            contacts.last().id,
            contact_entry(contacts.last()),
        )
    }
}

/// The first of the foremost SGs among a user's devices.
pub open spec fn top_sg(devices: Seq<DeviceEntryModel>) -> Option<DeviceEntryModel>
    decreases devices.len(),
{
    if devices.len() == 0 {
        None
    } else {
        let front = top_sg(devices.drop_last());
        let d = devices.last();
        if d.grade != GRADE_SG {
            front
        } else {
            match front {
                Some(b) => if sg_before(d.sg_rank, d.id, b.sg_rank, b.id) {
                    Some(d)
                } else {
                    front
                },
                None => Some(d),
            }
        }
    }
}

/// Grade and rank of the local device: of the last own device that bears its
/// identifier.
pub open spec fn local_grade(devices: Seq<DeviceEntryModel>, local: Uuid) -> Option<(u8, u8)>
    decreases devices.len(),
{
    if devices.len() == 0 {
        None
    } else if devices.last().id == local {
        Some((devices.last().grade, devices.last().sg_rank))
    } else {
        local_grade(devices.drop_last(), local)
    }
}

/// The User Agent on another device.
pub open spec fn remote_ua(d: DeviceEntryModel) -> UaRefModel {
    UaRefModel {
        device_uuid_hex: hex_chars(d.id@),
        device_uuid: d.id,
        label: d.alias,
        sg_rank: d.sg_rank,
        app_id_hex: match chat_app(d.apps) {
            Some(a) => Some(hex_chars(a@)),
            None => None,
        },
        app_id: chat_app(d.apps),
        is_self: false,
    }
}

/// This node as its user's User Agent.
pub open spec fn local_ua(h: HeaderModel, label: Seq<char>, sg_rank: u8) -> UaRefModel {
    UaRefModel {
        device_uuid_hex: hex_chars(h.local_device@),
        device_uuid: h.local_device,
        label,
        sg_rank,
        app_id_hex: Some(hex_chars(h.app_id@)),
        app_id: Some(h.app_id),
        is_self: true,
    }
}

/// This node's role, and its user's User Agent.
///
/// The User Agent is the user's top-ranked SG. A local device that is not
/// listed leaves the role unknown; a user without an SG has no User Agent.
pub open spec fn role_and_ua(
    h: HeaderModel,
    devices: Seq<DeviceEntryModel>,
) -> (Role, Option<UaRefModel>) {
    match (local_grade(devices, h.local_device), top_sg(devices)) {
        (None, _) => (Role::Unknown, None),
        (Some(_), None) => (Role::DataGuest, None),
        (Some((grade, rank)), Some(top)) => if grade != GRADE_SG {
            (Role::DataGuest, Some(remote_ua(top)))
        } else if top.id == h.local_device {
            (Role::UserAgent, Some(local_ua(h, top.alias, rank)))
        } else {
            (Role::SgStandby, Some(remote_ua(top)))
        },
    }
}

/// The node after a reply: nothing changes when the part about this app does
/// not read; only that part is taken over when the rest does not read.
pub open spec fn after_get_data(n: NodeModel, reply: Seq<u8>) -> NodeModel {
    match header_at(reply) {
        None => n,
        Some((h, p)) => {
            let seen = NodeModel {
                app_info: Some(
                    AppInfoModel {
                        id_hex: hex_chars(h.app_id@),
                        alias: h.alias,
                        approved: h.approved,
                    },
                ),
                ..n
            };
            match topology_at(reply, p) {
                None => seen,
                Some(t) => with_topology(seen, h, t),
            }
        },
    }
}

/// The node with a whole reply taken over.
pub open spec fn with_topology(n: NodeModel, h: HeaderModel, t: TopologyModel) -> NodeModel {
    NodeModel {
        destinations: user_destinations(h, own_view(t), t.devices) + contact_destinations(
            h,
            t.contacts,
        ),
        app_owners: with_contact_owners(
            with_user_owners(Map::empty(), own_view(t), t.devices),
            t.contacts,
        ),
        directory: with_contacts(Map::empty().insert(t.owner, own_entry(t)), t.contacts),
        own_user_uuid: Some(t.owner),
        local_device: Some(h.local_device),
        local_app_id: Some(h.app_id),
        role: role_and_ua(h, t.devices).0,
        ua: role_and_ua(h, t.devices).1,
        ..n
    }
}

fn label_of(prefix: &str, d: &DeviceEntry, a: &AppEntry) -> (r: String)
    ensures
        r@ == prefix@ + d.alias@ + " / "@ + a.alias@,
{
    let mut out = prefix.to_owned();
    out.append(d.alias.as_str());
    out.append(" / ");
    out.append(a.alias.as_str());
    out
}

fn id_bytes(u: &Uuid) -> (r: Vec<u8>)
    ensures
        r@ == u@,
{
    let mut out: Vec<u8> = Vec::new();
    out.extend_from_slice(u.as_slice());
    assert(out@ =~= u@);
    out
}

fn note_device(
    h: &Header,
    user: &Uuid,
    own: bool,
    prefix: &str,
    d: &DeviceEntry,
    dests: &mut Vec<Destination>,
    owners: &mut UuidMap<AppOwner>,
)
    ensures
        ({
            let u = UserView { user: *user, own, prefix: prefix@ };
            &&& views(final(dests)@) == views(old(dests)@) + device_destinations(
                h@,
                u,
                d@,
                d@.apps,
            )
            &&& final(owners)@ == with_device_owners(old(owners)@, u, d@, d@.apps)
        }),
{
    broadcast use crate::views::group_views;

    let ghost u = UserView { user: *user, own, prefix: prefix@ };
    let mut i: usize = 0;
    assert(views(dests@) + Seq::<DestinationModel>::empty() =~= views(dests@));
    assert(d@.apps.take(0) =~= Seq::empty());
    while i < d.apps.len()
        invariant
            i <= d.apps@.len(),
            d@.apps == views(d.apps@),
            u == (UserView { user: *user, own, prefix: prefix@ }),
            views(dests@) == views(old(dests)@) + device_destinations(
                h@,
                u,
                d@,
                d@.apps.take(i as int),
            ),
            owners@ == with_device_owners(old(owners)@, u, d@, d@.apps.take(i as int)),
        decreases d.apps@.len() - i,
    {
        broadcast use crate::views::group_views;

        proof {
            lemma_views_take(d.apps@, i as int);
        }
        let a = &d.apps[i];
        let label = label_of(prefix, d, a);
        owners.insert(
            a.id,
            AppOwner {
                user_uuid: *user,
                device_uuid: d.id,
                label: label.clone(),
                own_user: own,
            },
        );
        if !(own && uuid_eq(&d.id, &h.local_device) && uuid_eq(&a.id, &h.app_id)) {
            let grade = if d.grade == GRADE_SG {
                "SG".to_owned()
            } else {
                "DG".to_owned()
            };
            dests.push(
                Destination {
                    label,
                    user_uuid_hex: hex(user.as_slice()),
                    device_uuid: id_bytes(&d.id),
                    grade,
                    sg_rank: d.sg_rank,
                    own_user: own,
                    app_id_hex: hex(a.id.as_slice()),
                    app_id: a.id,
                },
            );
        }
        assert(views(dests@) =~= views(old(dests)@) + device_destinations(
            h@,
            u,
            d@,
            d@.apps.take(i + 1),
        ));
        i += 1;
    }
    assert(d@.apps.take(i as int) =~= d@.apps);
}

fn note_user(
    h: &Header,
    user: &Uuid,
    own: bool,
    prefix: &str,
    devices: &Vec<DeviceEntry>,
    dests: &mut Vec<Destination>,
    owners: &mut UuidMap<AppOwner>,
)
    ensures
        ({
            let u = UserView { user: *user, own, prefix: prefix@ };
            &&& views(final(dests)@) == views(old(dests)@) + user_destinations(
                h@,
                u,
                views(devices@),
            )
            &&& final(owners)@ == with_user_owners(old(owners)@, u, views(devices@))
        }),
{
    let ghost u = UserView { user: *user, own, prefix: prefix@ };
    let ghost all = views(devices@);
    let mut i: usize = 0;
    assert(views(dests@) + Seq::<DestinationModel>::empty() =~= views(dests@));
    assert(all.take(0) =~= Seq::empty());
    while i < devices.len()
        invariant
            i <= devices@.len(),
            all == views(devices@),
            u == (UserView { user: *user, own, prefix: prefix@ }),
            views(dests@) == views(old(dests)@) + user_destinations(h@, u, all.take(i as int)),
            owners@ == with_user_owners(old(owners)@, u, all.take(i as int)),
        decreases devices@.len() - i,
    {
        proof {
            lemma_views_take(devices@, i as int);
        }
        note_device(h, user, own, prefix, &devices[i], dests, owners);
        assert(views(dests@) =~= views(old(dests)@) + user_destinations(h@, u, all.take(i + 1)));
        i += 1;
    }
    assert(all.take(i as int) =~= all);
}

fn note_contacts(
    h: &Header,
    contacts: &Vec<ContactEntry>,
    dests: &mut Vec<Destination>,
    owners: &mut UuidMap<AppOwner>,
)
    ensures
        views(final(dests)@) == views(old(dests)@) + contact_destinations(h@, views(contacts@)),
        final(owners)@ == with_contact_owners(old(owners)@, views(contacts@)),
{
    let ghost all = views(contacts@);
    let mut i: usize = 0;
    assert(views(dests@) + Seq::<DestinationModel>::empty() =~= views(dests@));
    assert(all.take(0) =~= Seq::empty());
    while i < contacts.len()
        invariant
            i <= contacts@.len(),
            all == views(contacts@),
            views(dests@) == views(old(dests)@) + contact_destinations(h@, all.take(i as int)),
            owners@ == with_contact_owners(old(owners)@, all.take(i as int)),
        decreases contacts@.len() - i,
    {
        proof {
            lemma_views_take(contacts@, i as int);
        }
        let c = &contacts[i];
        let mut prefix = c.alias.clone();
        prefix.append(" / ");
        note_user(h, &c.id, false, prefix.as_str(), &c.devices, dests, owners);
        assert(views(dests@) =~= views(old(dests)@) + contact_destinations(h@, all.take(i + 1)));
        i += 1;
    }
    assert(all.take(i as int) =~= all);
}

/// The first chat app on a device.
pub fn find_chat_app(apps: &Vec<AppEntry>) -> (r: Option<Uuid>)
    ensures
        r == chat_app(views(apps@)),
{
    let name: String = APP_ALIAS.to_owned();
    let ghost all = views(apps@);
    let mut best: Option<Uuid> = None;
    let mut i: usize = 0;
    assert(all.take(0) =~= Seq::empty());
    while i < apps.len()
        invariant
            i <= apps@.len(),
            all == views(apps@),
            name@ == APP_ALIAS@,
            best == chat_app(all.take(i as int)),
        decreases apps@.len() - i,
    {
        proof {
            lemma_views_take(apps@, i as int);
        }
        if best.is_none() && apps[i].alias == name {
            best = Some(apps[i].id);
        }
        i += 1;
    }
    assert(all.take(i as int) =~= all);
    best
}

/// The SGs among a user's devices.
pub fn list_sgs(devices: &Vec<DeviceEntry>) -> (r: Vec<SgEntry>)
    ensures
        r@ == sgs_of(views(devices@)),
{
    let ghost all = views(devices@);
    let mut out: Vec<SgEntry> = Vec::new();
    let mut i: usize = 0;
    assert(all.take(0) =~= Seq::empty());
    while i < devices.len()
        invariant
            i <= devices@.len(),
            all == views(devices@),
            out@ == sgs_of(all.take(i as int)),
        decreases devices@.len() - i,
    {
        proof {
            lemma_views_take(devices@, i as int);
        }
        let d = &devices[i];
        if d.grade == GRADE_SG {
            out.push((d.id, d.sg_rank, find_chat_app(&d.apps)));
        }
        i += 1;
    }
    assert(all.take(i as int) =~= all);
    out
}

fn note_directory(directory: &mut UuidMap<UserDir>, contacts: &Vec<ContactEntry>)
    ensures
        final(directory)@ == with_contacts(old(directory)@, views(contacts@)),
{
    let ghost all = views(contacts@);
    let mut i: usize = 0;
    assert(all.take(0) =~= Seq::empty());
    while i < contacts.len()
        invariant
            i <= contacts@.len(),
            all == views(contacts@),
            directory@ == with_contacts(old(directory)@, all.take(i as int)),
        decreases contacts@.len() - i,
    {
        proof {
            lemma_views_take(contacts@, i as int);
        }
        let c = &contacts[i];
        directory.insert(
            c.id,
            UserDir { alias: c.alias.clone(), own: false, sgs: list_sgs(&c.devices) },
        );
        i += 1;
    }
    assert(all.take(i as int) =~= all);
}

fn find_top_sg(devices: &Vec<DeviceEntry>) -> (r: Option<usize>)
    ensures
        match r {
            Some(i) => i < devices@.len() && top_sg(views(devices@)) == Some(devices@[i as int]@),
            None => top_sg(views(devices@)) is None,
        },
{
    let ghost all = views(devices@);
    let mut best: Option<usize> = None;
    let mut i: usize = 0;
    assert(all.take(0) =~= Seq::empty());
    while i < devices.len()
        invariant
            i <= devices@.len(),
            all == views(devices@),
            match best {
                Some(b) => b < i && top_sg(all.take(i as int)) == Some(devices@[b as int]@),
                None => top_sg(all.take(i as int)) is None,
            },
        decreases devices@.len() - i,
    {
        proof {
            lemma_views_take(devices@, i as int);
        }
        let d = &devices[i];
        if d.grade == GRADE_SG {
            let better = match best {
                Some(b) => sg_precedes(d.sg_rank, &d.id, devices[b].sg_rank, &devices[b].id),
                None => true,
            };
            if better {
                best = Some(i);
            }
        }
        i += 1;
    }
    assert(all.take(i as int) =~= all);
    best
}

fn find_local_grade(devices: &Vec<DeviceEntry>, local: &Uuid) -> (r: Option<(u8, u8)>)
    ensures
        r == local_grade(views(devices@), *local),
{
    let ghost all = views(devices@);
    let mut found: Option<(u8, u8)> = None;
    let mut i: usize = 0;
    assert(all.take(0) =~= Seq::empty());
    while i < devices.len()
        invariant
            i <= devices@.len(),
            all == views(devices@),
            found == local_grade(all.take(i as int), *local),
        decreases devices@.len() - i,
    {
        proof {
            lemma_views_take(devices@, i as int);
        }
        if uuid_eq(&devices[i].id, local) {
            found = Some((devices[i].grade, devices[i].sg_rank));
        }
        i += 1;
    }
    assert(all.take(i as int) =~= all);
    found
}

/// The User Agent on another of our devices.
fn ua_ref_from(d: &DeviceEntry) -> (r: UaRef)
    ensures
        r@ == remote_ua(d@),
{
    let app_id = find_chat_app(&d.apps);
    let app_id_hex = match app_id {
        Some(a) => Some(hex(a.as_slice())),
        None => None,
    };
    UaRef {
        device_uuid_hex: hex(d.id.as_slice()),
        device_uuid: d.id,
        label: d.alias.clone(),
        sg_rank: d.sg_rank,
        app_id_hex,
        app_id,
        is_self: false,
    }
}

/// This node's role, and its user's User Agent.
pub fn resolve_role(h: &Header, devices: &Vec<DeviceEntry>) -> (r: (Role, Option<UaRef>))
    ensures
        r.0 == role_and_ua(h@, views(devices@)).0,
        match role_and_ua(h@, views(devices@)).1 {
            Some(m) => r.1 matches Some(u) && u@ == m,
            None => r.1 is None,
        },
{
    let Some((grade, rank)) = find_local_grade(devices, &h.local_device) else {
        return (Role::Unknown, None);
    };
    let Some(i) = find_top_sg(devices) else {
        return (Role::DataGuest, None);
    };
    let top = &devices[i];
    if grade != GRADE_SG {
        (Role::DataGuest, Some(ua_ref_from(top)))
    } else if uuid_eq(&top.id, &h.local_device) {
        let ua = UaRef {
            device_uuid_hex: hex(h.local_device.as_slice()),
            device_uuid: h.local_device,
            label: top.alias.clone(),
            sg_rank: rank,
            app_id_hex: Some(hex(h.app_id.as_slice())),
            app_id: Some(h.app_id),
            is_self: true,
        };
        (Role::UserAgent, Some(ua))
    } else {
        (Role::SgStandby, Some(ua_ref_from(top)))
    }
}

/// Take over the daemon's reply to a get-data request.
///
/// Builds the reverse map from sending app to owner, the destinations and the
/// directory, and resolves this node's role and its User Agent.
pub fn parse_get_data(reply: &[u8], inner: &mut Inner)
    ensures
        final(inner)@ == after_get_data(old(inner)@, reply@),
        old(inner)@.wf() ==> final(inner)@.wf(),
{
    broadcast use crate::views::group_views;

    let mut pos: usize = 1;
    let Some(h) = read_header(reply, &mut pos) else {
        return ;
    };
    inner.app_info =
    Some(
        AppInfo { id_hex: hex(h.app_id.as_slice()), alias: h.alias.clone(), approved: h.approved },
    );
    let Some(t) = read_topology(reply, &mut pos) else {
        return ;
    };
    let mut dests: Vec<Destination> = Vec::new();
    let mut owners: UuidMap<AppOwner> = UuidMap::new();
    note_user(&h, &t.owner, true, "", &t.devices, &mut dests, &mut owners);
    note_contacts(&h, &t.contacts, &mut dests, &mut owners);
    let mut directory: UuidMap<UserDir> = UuidMap::new();
    directory.insert(
        t.owner,
        UserDir { alias: t.owner_alias.clone(), own: true, sgs: list_sgs(&t.devices) },
    );
    note_directory(&mut directory, &t.contacts);
    let (role, ua) = resolve_role(&h, &t.devices);
    inner.destinations = dests;
    inner.app_owners = owners;
    inner.directory = directory;
    inner.own_user_uuid = Some(t.owner);
    inner.local_device = Some(h.local_device);
    inner.local_app_id = Some(h.app_id);
    inner.role = role;
    inner.ua = ua;
    assert(inner@ =~= after_get_data(old(inner)@, reply@));
}

// ── Fetching ─────────────────────────────────────────────────────────────────

/// Whether a get-data reply is a success at all.
pub open spec fn is_ok_reply(reply: Seq<u8>) -> bool {
    reply.len() > 0 && reply[0] == STATUS_OK
}

/// The node after a reply that came at `now`: a refused request changes
/// nothing; else the fetch counts once the app is known.
pub open spec fn after_fetch(n: NodeModel, reply: Seq<u8>, now: u64) -> NodeModel {
    if !is_ok_reply(reply) {
        n
    } else {
        let m = after_get_data(n, reply);
        if m.app_info is Some {
            NodeModel { last_fetch_ok: Some(now), ..m }
        } else {
            m
        }
    }
}

/// Take over a reply that came at `now`, and say whether it was a success.
pub fn accept_fetch(inner: &mut Inner, reply: &[u8], now: u64) -> (r: bool)
    ensures
        r == is_ok_reply(reply@),
        final(inner)@ == after_fetch(old(inner)@, reply@, now),
        old(inner)@.wf() ==> final(inner)@.wf(),
{
    if reply.len() == 0 || reply[0] != STATUS_OK {
        return false;
    }
    parse_get_data(reply, inner);
    if inner.app_info.is_some() {
        inner.last_fetch_ok = Some(now);
    }
    assert(inner@ =~= after_fetch(old(inner)@, reply@, now));
    true
}

/// The token of a registration reply: `status:u8, token:16`.
pub open spec fn registered_token(reply: Seq<u8>) -> Option<Uuid> {
    if reply.len() >= 17 && reply[0] == STATUS_OK {
        Some(crate::bytes::uuid_of(reply.subrange(1, 17)))
    } else {
        None
    }
}

/// Read a registration reply.
pub fn parse_register_reply(reply: &[u8]) -> (r: Option<Uuid>)
    ensures
        r == registered_token(reply@),
{
    if reply.len() < 17 || reply[0] != STATUS_OK {
        return None;
    }
    let mut pos: usize = 1;
    read_uuid(reply, &mut pos)
}

/// A saved token: exactly sixteen bytes.
pub fn token_from_bytes(saved: &[u8]) -> (r: Option<Uuid>)
    ensures
        match r {
            Some(t) => t@ == saved@,
            None => saved@.len() != 16,
        },
{
    if saved.len() != 16 {
        return None;
    }
    let mut pos: usize = 0;
    let r = crate::bytes::read_bytes::<16>(saved, &mut pos);
    assert(saved@.subrange(0, 16) =~= saved@);
    r
}

} // verus!
