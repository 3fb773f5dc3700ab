//! Every node that sees the same devices agrees on who acts for a user.

use crate::bytes::{lemma_uuid_of_view, Uuid};
use crate::snapshot::{after_fetch, contact_destinations, contact_view, destination_of};
use crate::snapshot::{device_destinations, is_this_client, own_view, role_and_ua, top_sg};
use crate::snapshot::{user_destinations, with_contact_owners, with_device_owners, with_topology};
use crate::snapshot::{with_user_owners, AppEntryModel, ContactEntryModel, DeviceEntryModel};
use crate::snapshot::{HeaderModel, TopologyModel, UserView, GRADE_SG};
use crate::state::{best_sg, sg_before, ua_of, AppOwnerModel, DestinationModel, NodeModel, Role};
use crate::state::SgEntry;
use crate::uuid::{key, lemma_key_injective};
use vstd::prelude::*;

verus! {

/// A user's User Agent runs the app, is one of the user's SGs, and no SG that
/// runs the app has a lower rank, or the same rank and a lower identifier.
pub proof fn ua_is_foremost(sgs: Seq<SgEntry>)
    ensures
        match best_sg(sgs) {
            Some(b) => {
                &&& sgs.contains(b)
                &&& b.2 is Some
                &&& forall|i: int|
                    0 <= i < sgs.len() && (#[trigger] sgs[i]).2 is Some ==> !sg_before(
                        sgs[i].1,
                        sgs[i].0,
                        b.1,
                        b.0,
                    )
            },
            None => forall|i: int| 0 <= i < sgs.len() ==> (#[trigger] sgs[i]).2 is None,
        },
    decreases sgs.len(),
{
    if sgs.len() > 0 {
        let front = sgs.drop_last();
        ua_is_foremost(front);
        assert forall|i: int| 0 <= i < front.len() implies front[i] == sgs[i] by {}
        match best_sg(sgs) {
            Some(b) => {
                if best_sg(front) == Some(b) {
                    let i = choose|i: int| 0 <= i < front.len() && front[i] == b;
                    assert(sgs[i] == b);
                } else {
                    assert(sgs[sgs.len() - 1] == b);
                }
                assert forall|i: int|
                    0 <= i < sgs.len() && (#[trigger] sgs[i]).2 is Some implies !sg_before(
                    sgs[i].1,
                    sgs[i].0,
                    b.1,
                    b.0,
                ) by {
                    if i < front.len() {
                        assert(front[i].2 is Some);
                    }
                }
            },
            None => {
                assert forall|i: int| 0 <= i < sgs.len() implies (#[trigger] sgs[i]).2 is None by {
                    if i < front.len() {
                        assert(front[i].2 is None);
                    }
                }
            },
        }
    }
}

/// Nodes that list the same SGs in whatever order resolve the same User Agent,
/// if no device is listed twice.
pub proof fn ua_is_agreed(a: Seq<SgEntry>, b: Seq<SgEntry>)
    requires
        forall|x: SgEntry| a.contains(x) <==> b.contains(x),
        forall|i: int, j: int|
            0 <= i < a.len() && 0 <= j < a.len() && (#[trigger] a[i]).0 == (#[trigger] a[j]).0
                ==> i == j,
    ensures
        ua_of(a) == ua_of(b),
{
    broadcast use lemma_key_injective;

    ua_is_foremost(a);
    ua_is_foremost(b);
    match (best_sg(a), best_sg(b)) {
        (Some(x), Some(y)) => {
            assert(b.contains(x) && a.contains(y));
            let i = choose|i: int| 0 <= i < b.len() && b[i] == x;
            let j = choose|j: int| 0 <= j < a.len() && a[j] == y;
            let k = choose|k: int| 0 <= k < a.len() && a[k] == x;
            assert(!sg_before(b[i].1, b[i].0, y.1, y.0));
            assert(!sg_before(a[j].1, a[j].0, x.1, x.0));
            assert(key(x.0) == key(y.0));
            assert(a[k].0 == a[j].0);
        },
        (Some(x), None) => {
            assert(b.contains(x));
        },
        (None, Some(y)) => {
            assert(a.contains(y));
        },
        (None, None) => {},
    }
}

/// The top SG is one of the user's SGs, and no SG has a lower rank, or the same
/// rank and a lower identifier.
pub proof fn top_sg_is_foremost(devices: Seq<DeviceEntryModel>)
    ensures
        match top_sg(devices) {
            Some(t) => {
                &&& devices.contains(t)
                &&& t.grade == GRADE_SG
                &&& forall|i: int|
                    0 <= i < devices.len() && (#[trigger] devices[i]).grade == GRADE_SG
                        ==> !sg_before(devices[i].sg_rank, devices[i].id, t.sg_rank, t.id)
            },
            None => forall|i: int|
                0 <= i < devices.len() ==> (#[trigger] devices[i]).grade != GRADE_SG,
        },
    decreases devices.len(),
{
    if devices.len() > 0 {
        let front = devices.drop_last();
        top_sg_is_foremost(front);
        assert forall|i: int| 0 <= i < front.len() implies front[i] == devices[i] by {}
        match top_sg(devices) {
            Some(t) => {
                if top_sg(front) == Some(t) {
                    let i = choose|i: int| 0 <= i < front.len() && front[i] == t;
                    assert(devices[i] == t);
                } else {
                    assert(devices[devices.len() - 1] == t);
                }
                assert forall|i: int|
                    0 <= i < devices.len() && (#[trigger] devices[i]).grade
                        == GRADE_SG implies !sg_before(
                    devices[i].sg_rank,
                    devices[i].id,
                    t.sg_rank,
                    t.id,
                ) by {
                    if i < front.len() {
                        assert(front[i].grade == GRADE_SG);
                    }
                }
            },
            None => {
                assert forall|i: int| 0 <= i < devices.len() implies (#[trigger] devices[i]).grade
                    != GRADE_SG by {
                    if i < front.len() {
                        assert(front[i].grade != GRADE_SG);
                    }
                }
            },
        }
    }
}

/// Two nodes of a user that list the same devices in whatever order, none of
/// them twice, name the same device as User Agent, and at most one of them acts
/// as it.
pub proof fn one_user_agent(
    h1: HeaderModel,
    d1: Seq<DeviceEntryModel>,
    h2: HeaderModel,
    d2: Seq<DeviceEntryModel>,
)
    requires
        forall|x: DeviceEntryModel| d1.contains(x) <==> d2.contains(x),
        forall|i: int, j: int|
            0 <= i < d1.len() && 0 <= j < d1.len() && (#[trigger] d1[i]).id == (#[trigger] d1[j]).id
                ==> i == j,
    ensures
        role_and_ua(h1, d1).0 == Role::UserAgent && role_and_ua(h2, d2).0 == Role::UserAgent
            ==> h1.local_device == h2.local_device,
        match (role_and_ua(h1, d1).1, role_and_ua(h2, d2).1) {
            (Some(a), Some(b)) => a.device_uuid == b.device_uuid,
            _ => true,
        },
{
    broadcast use lemma_key_injective;

    top_sg_is_foremost(d1);
    top_sg_is_foremost(d2);
    if let (Some(x), Some(y)) = (top_sg(d1), top_sg(d2)) {
        assert(d2.contains(x) && d1.contains(y));
        let i = choose|i: int| 0 <= i < d2.len() && d2[i] == x;
        let j = choose|j: int| 0 <= j < d1.len() && d1[j] == y;
        assert(!sg_before(d2[i].sg_rank, d2[i].id, y.sg_rank, y.id));
        assert(!sg_before(d1[j].sg_rank, d1[j].id, x.sg_rank, x.id));
        assert(key(x.id) == key(y.id));
    }
}

proof fn lemma_device_destinations(
    h: HeaderModel,
    u: UserView,
    d: DeviceEntryModel,
    apps: Seq<AppEntryModel>,
)
    ensures
        forall|i: int|
            0 <= i < device_destinations(h, u, d, apps).len() ==> !is_client(
                h,
                #[trigger] device_destinations(h, u, d, apps)[i],
            ),
    decreases apps.len(),
{
    if apps.len() > 0 {
        lemma_device_destinations(h, u, d, apps.drop_last());
        let a = apps.last();
        if u.own && d.id@ == h.local_device@ {
            lemma_uuid_of_view(d.id);
            lemma_uuid_of_view(h.local_device);
        }
        assert(!is_this_client(h, u, d, a) ==> !is_client(
            h,
            destination_of(u, d, a),
        ));
        let front = device_destinations(h, u, d, apps.drop_last());
        let out = device_destinations(h, u, d, apps);
        assert forall|i: int| 0 <= i < out.len() implies !is_client(h, #[trigger] out[i]) by {
            if i < front.len() {
                assert(out[i] == front[i]);
            }
        }
    }
}

proof fn lemma_user_destinations(h: HeaderModel, u: UserView, devices: Seq<DeviceEntryModel>)
    ensures
        forall|i: int|
            0 <= i < user_destinations(h, u, devices).len() ==> !is_client(
                h,
                #[trigger] user_destinations(h, u, devices)[i],
            ),
    decreases devices.len(),
{
    if devices.len() > 0 {
        let front = user_destinations(h, u, devices.drop_last());
        let d = devices.last();
        let out = user_destinations(h, u, devices);
        lemma_user_destinations(h, u, devices.drop_last());
        lemma_device_destinations(h, u, d, d.apps);
        assert forall|i: int| 0 <= i < out.len() implies !is_client(h, #[trigger] out[i]) by {
            if i < front.len() {
                assert(out[i] == front[i]);
            } else {
                assert(out[i] == device_destinations(h, u, d, d.apps)[i - front.len()]);
            }
        }
    }
}

proof fn lemma_contact_destinations(h: HeaderModel, contacts: Seq<ContactEntryModel>)
    ensures
        forall|i: int|
            0 <= i < contact_destinations(h, contacts).len() ==> !is_client(
                h,
                #[trigger] contact_destinations(h, contacts)[i],
            ),
    decreases contacts.len(),
{
    if contacts.len() > 0 {
        let front = contact_destinations(h, contacts.drop_last());
        let c = contacts.last();
        let out = contact_destinations(h, contacts);
        lemma_contact_destinations(h, contacts.drop_last());
        lemma_user_destinations(h, contact_view(c), c.devices);
        assert forall|i: int| 0 <= i < out.len() implies !is_client(h, #[trigger] out[i]) by {
            if i < front.len() {
                assert(out[i] == front[i]);
            } else {
                assert(out[i] == user_destinations(h, contact_view(c), c.devices)[i
                    - front.len()]);
            }
        }
    }
}

/// Whether a destination is this very client.
pub open spec fn is_client(h: HeaderModel, d: DestinationModel) -> bool {
    d.own_user && d.device_uuid == h.local_device@ && d.app_id == h.app_id
}

/// This very client is never listed as a destination of our own user.
pub proof fn never_our_own_destination(n: NodeModel, h: HeaderModel, t: TopologyModel, i: int)
    requires
        0 <= i < with_topology(n, h, t).destinations.len(),
    ensures
        !is_client(h, with_topology(n, h, t).destinations[i]),
{
    let own = user_destinations(h, own_view(t), t.devices);
    let rest = contact_destinations(h, t.contacts);
    let out = with_topology(n, h, t).destinations;
    lemma_user_destinations(h, own_view(t), t.devices);
    lemma_contact_destinations(h, t.contacts);
    if i < own.len() {
        assert(out[i] == own[i]);
    } else {
        assert(out[i] == rest[i - own.len()]);
    }
}

proof fn lemma_device_owners(
    owners: Map<Uuid, AppOwnerModel>,
    u: UserView,
    d: DeviceEntryModel,
    apps: Seq<AppEntryModel>,
)
    ensures
        forall|a: Uuid| #[trigger]
            owners.contains_key(a) ==> with_device_owners(owners, u, d, apps).contains_key(a),
        forall|i: int|
            0 <= i < apps.len() ==> with_device_owners(owners, u, d, apps).contains_key(
                (#[trigger] apps[i]).id,
            ),
    decreases apps.len(),
{
    if apps.len() > 0 {
        let front = apps.drop_last();
        lemma_device_owners(owners, u, d, front);
        assert forall|i: int| 0 <= i < apps.len() implies with_device_owners(
            owners,
            u,
            d,
            apps,
        ).contains_key((#[trigger] apps[i]).id) by {
            if i < front.len() {
                assert(front[i] == apps[i]);
            }
        }
    }
}

proof fn lemma_user_owners(
    owners: Map<Uuid, AppOwnerModel>,
    u: UserView,
    devices: Seq<DeviceEntryModel>,
)
    ensures
        forall|a: Uuid| #[trigger]
            owners.contains_key(a) ==> with_user_owners(owners, u, devices).contains_key(a),
        forall|i: int, j: int|
            0 <= i < devices.len() && 0 <= j < devices[i].apps.len() ==> with_user_owners(
                owners,
                u,
                devices,
            ).contains_key((#[trigger] devices[i].apps[j]).id),
    decreases devices.len(),
{
    if devices.len() > 0 {
        let front = devices.drop_last();
        let d = devices.last();
        lemma_user_owners(owners, u, front);
        lemma_device_owners(with_user_owners(owners, u, front), u, d, d.apps);
        assert forall|i: int, j: int|
            0 <= i < devices.len() && 0 <= j < devices[i].apps.len() implies with_user_owners(
            owners,
            u,
            devices,
        ).contains_key((#[trigger] devices[i].apps[j]).id) by {
            if i < front.len() {
                assert(front[i] == devices[i]);
                assert(with_user_owners(owners, u, front).contains_key(front[i].apps[j].id));
            }
        }
    }
}

proof fn lemma_contact_owners(
    owners: Map<Uuid, AppOwnerModel>,
    contacts: Seq<ContactEntryModel>,
)
    ensures
        forall|a: Uuid| #[trigger]
            owners.contains_key(a) ==> with_contact_owners(owners, contacts).contains_key(a),
        forall|c: int, i: int, j: int|
            0 <= c < contacts.len() && 0 <= i < contacts[c].devices.len() && 0 <= j
                < contacts[c].devices[i].apps.len() ==> with_contact_owners(
                owners,
                contacts,
            ).contains_key((#[trigger] contacts[c].devices[i].apps[j]).id),
    decreases contacts.len(),
{
    if contacts.len() > 0 {
        let front = contacts.drop_last();
        let last = contacts.last();
        lemma_contact_owners(owners, front);
        lemma_user_owners(
            with_contact_owners(owners, front),
            contact_view(last),
            last.devices,
        );
        assert forall|c: int, i: int, j: int|
            0 <= c < contacts.len() && 0 <= i < contacts[c].devices.len() && 0 <= j
                < contacts[c].devices[i].apps.len() implies with_contact_owners(
            owners,
            contacts,
        ).contains_key((#[trigger] contacts[c].devices[i].apps[j]).id) by {
            if c < front.len() {
                assert(front[c] == contacts[c]);
                assert(with_contact_owners(owners, front).contains_key(
                    front[c].devices[i].apps[j].id,
                ));
            }
        }
    }
}

/// Every app that a reply lists, ours or a contact's, resolves to an owner.
pub proof fn every_listed_app_is_owned(n: NodeModel, h: HeaderModel, t: TopologyModel)
    ensures
        forall|i: int, j: int|
            0 <= i < t.devices.len() && 0 <= j < t.devices[i].apps.len() ==> with_topology(
                n,
                h,
                t,
            ).app_owners.contains_key((#[trigger] t.devices[i].apps[j]).id),
        forall|c: int, i: int, j: int|
            0 <= c < t.contacts.len() && 0 <= i < t.contacts[c].devices.len() && 0 <= j
                < t.contacts[c].devices[i].apps.len() ==> with_topology(
                n,
                h,
                t,
            ).app_owners.contains_key((#[trigger] t.contacts[c].devices[i].apps[j]).id),
{
    let own = with_user_owners(Map::empty(), own_view(t), t.devices);
    lemma_user_owners(Map::empty(), own_view(t), t.devices);
    lemma_contact_owners(own, t.contacts);
}

/// A fetch keeps the token, the rooms, the clients, the attachment and the log.
pub proof fn fetches_keep_rooms(n: NodeModel, reply: Seq<u8>, now: u64)
    ensures
        after_fetch(n, reply, now).token == n.token,
        after_fetch(n, reply, now).rooms == n.rooms,
        after_fetch(n, reply, now).attached_clients == n.attached_clients,
        after_fetch(n, reply, now).attach == n.attach,
        after_fetch(n, reply, now).log == n.log,
{
}

} // verus!
