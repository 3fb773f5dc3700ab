//! What a node learns from the daemon's reply: which apps it can send to, whom
//! they belong to, where each user is reached, and what it is itself.

use crate::bytes::Uuid;
use crate::laws::changes::{is_foremost, users_are_reached_at_their_own_sg};
use crate::laws::topology::top_sg_is_foremost;
use crate::snapshot::{after_fetch, after_get_data, chat_app, contact_destinations, contact_view};
use crate::snapshot::{device_destinations, header_at, local_grade, own_entry, own_view};
use crate::snapshot::{role_and_ua, sgs_of, top_sg, topology_at, user_destinations};
use crate::snapshot::{with_contact_owners, with_contacts, with_device_owners, with_topology};
use crate::snapshot::{with_user_owners, AppEntryModel, ContactEntryModel, DeviceEntryModel};
use crate::snapshot::{HeaderModel, TopologyModel, UserView};
use crate::state::{reach, sg_before, AppInfoModel, AppOwnerModel, DestinationModel, NodeModel};
use crate::state::{Role, SgEntry, UserDirModel};
use crate::text::hex_chars;
use crate::uuid::{key, lemma_key_injective};
use vstd::prelude::*;

verus! {

// ── The apps that a reply lists ──────────────────────────────────────────────

/// An app that a reply lists, with whose it is and what its label starts with.
pub struct Listing {
    pub user: Uuid,
    pub own: bool,
    pub prefix: Seq<char>,
    pub device: DeviceEntryModel,
    pub app: AppEntryModel,
}

/// An app of a device.
pub open spec fn as_listing(user: Uuid, own: bool, prefix: Seq<char>, device: DeviceEntryModel) ->
    spec_fn(AppEntryModel) -> Listing {
    |app: AppEntryModel| Listing { user, own, prefix, device, app }
}

/// The apps of a device.
pub open spec fn on_device(user: Uuid, own: bool, prefix: Seq<char>) -> spec_fn(
    DeviceEntryModel,
) -> Seq<Listing> {
    |d: DeviceEntryModel| d.apps.map_values(as_listing(user, own, prefix, d))
}

/// The apps of a user, device by device.
pub open spec fn of_user(
    user: Uuid,
    own: bool,
    prefix: Seq<char>,
    devices: Seq<DeviceEntryModel>,
) -> Seq<Listing> {
    devices.map_values(on_device(user, own, prefix)).flatten_alt()
}

/// The apps of a contact.
pub open spec fn of_contact() -> spec_fn(ContactEntryModel) -> Seq<Listing> {
    |c: ContactEntryModel| of_user(c.id, false, c.alias + " / "@, c.devices)
}

/// The apps that a reply lists: our own user's, then each contact's.
pub open spec fn listings(t: TopologyModel) -> Seq<Listing> {
    of_user(t.owner, true, ""@, t.devices) + t.contacts.map_values(of_contact()).flatten_alt()
}

/// Whether an app is any but this very client of our own user's.
pub open spec fn is_another(h: HeaderModel) -> spec_fn(Listing) -> bool {
    |l: Listing| !(l.own && l.device.id == h.local_device && l.app.id == h.app_id)
}

/// The label of an app: whose it is, its device and its alias.
pub open spec fn labelled(l: Listing) -> Seq<char> {
    l.prefix + l.device.alias + " / "@ + l.app.alias
}

/// An app as a destination.
pub open spec fn as_destination() -> spec_fn(Listing) -> DestinationModel {
    |l: Listing|
        DestinationModel {
            label: labelled(l),
            user_uuid_hex: hex_chars(l.user@),
            device_uuid: l.device.id@,
            grade: if l.device.grade == 1 {
                "SG"@
            } else {
                "DG"@
            },
            sg_rank: l.device.sg_rank,
            own_user: l.own,
            app_id_hex: hex_chars(l.app.id@),
            app_id: l.app.id,
        }
}

/// Who an app belongs to.
pub open spec fn belongs(l: Listing) -> AppOwnerModel {
    AppOwnerModel {
        user_uuid: l.user,
        device_uuid: l.device.id,
        label: labelled(l),
        own_user: l.own,
    }
}

/// Noting one more app's owner; a later listing of an app replaces an earlier.
pub open spec fn note_owner() -> spec_fn(Map<Uuid, AppOwnerModel>, Listing) -> Map<
    Uuid,
    AppOwnerModel,
> {
    |m: Map<Uuid, AppOwnerModel>, l: Listing| m.insert(l.app.id, belongs(l))
}

proof fn lemma_device_listings(h: HeaderModel, u: UserView, d: DeviceEntryModel, n: nat)
    requires
        n <= d.apps.len(),
    ensures
        ({
            let ls = d.apps.take(n as int).map_values(as_listing(u.user, u.own, u.prefix, d));
            device_destinations(h, u, d, d.apps.take(n as int)) == ls.filter(
                is_another(h),
            ).map_values(as_destination())
        }),
        forall|m: Map<Uuid, AppOwnerModel>|
            {
                let ls = d.apps.take(n as int).map_values(as_listing(u.user, u.own, u.prefix, d));
                #[trigger] with_device_owners(m, u, d, d.apps.take(n as int)) == ls.fold_left(
                    m,
                    note_owner(),
                )
            },
    decreases n,
{
    reveal(Seq::filter);
    let f = as_listing(u.user, u.own, u.prefix, d);
    let apps = d.apps.take(n as int);
    let ls = apps.map_values(f);
    if n > 0 {
        let front = d.apps.take(n - 1);
        lemma_device_listings(h, u, d, (n - 1) as nat);
        assert(apps.drop_last() =~= front);
        assert(ls.drop_last() =~= front.map_values(f));
        assert(ls.last() == f(apps.last()));
        let kept = ls.drop_last().filter(is_another(h));
        assert(ls.filter(is_another(h)).map_values(as_destination()) =~= if is_another(h)(
            ls.last(),
        ) {
            kept.map_values(as_destination()).push(as_destination()(ls.last()))
        } else {
            kept.map_values(as_destination())
        });
        assert forall|m: Map<Uuid, AppOwnerModel>| #[trigger]
            with_device_owners(m, u, d, apps) == ls.fold_left(m, note_owner()) by {
            assert(with_device_owners(m, u, d, front) == ls.drop_last().fold_left(
                m,
                note_owner(),
            ));
        }
    } else {
        assert(ls.filter(is_another(h)).map_values(as_destination()) =~= Seq::empty());
    }
}

proof fn lemma_fold_over_both<A, B>(a: Seq<A>, b: Seq<A>, x: B, f: spec_fn(B, A) -> B)
    ensures
        (a + b).fold_left(x, f) == b.fold_left(a.fold_left(x, f), f),
{
    let s = a + b;
    s.lemma_fold_left_split(x, f, a.len() as int);
    assert(s.subrange(0, a.len() as int) =~= a);
    assert(s.subrange(a.len() as int, s.len() as int) =~= b);
}

proof fn lemma_destinations_of_both(h: HeaderModel, a: Seq<Listing>, b: Seq<Listing>)
    ensures
        (a + b).filter(is_another(h)).map_values(as_destination()) == a.filter(
            is_another(h),
        ).map_values(as_destination()) + b.filter(is_another(h)).map_values(as_destination()),
{
    Seq::filter_distributes_over_add(a, b, is_another(h));
    assert((a.filter(is_another(h)) + b.filter(is_another(h))).map_values(as_destination())
        =~= a.filter(is_another(h)).map_values(as_destination()) + b.filter(
        is_another(h),
    ).map_values(as_destination()));
}

proof fn lemma_user_listings(h: HeaderModel, u: UserView, devices: Seq<DeviceEntryModel>)
    ensures
        user_destinations(h, u, devices) == of_user(u.user, u.own, u.prefix, devices).filter(
            is_another(h),
        ).map_values(as_destination()),
        forall|m: Map<Uuid, AppOwnerModel>| #[trigger]
            with_user_owners(m, u, devices) == of_user(u.user, u.own, u.prefix, devices).fold_left(
                m,
                note_owner(),
            ),
    decreases devices.len(),
{
    let f = on_device(u.user, u.own, u.prefix);
    let all = of_user(u.user, u.own, u.prefix, devices);
    if devices.len() > 0 {
        let front = devices.drop_last();
        let d = devices.last();
        let before = of_user(u.user, u.own, u.prefix, front);
        lemma_user_listings(h, u, front);
        lemma_device_listings(h, u, d, d.apps.len());
        assert(d.apps.take(d.apps.len() as int) =~= d.apps);
        assert(devices.map_values(f).drop_last() =~= front.map_values(f));
        assert(all == before + f(d));
        lemma_destinations_of_both(h, before, f(d));
        assert forall|m: Map<Uuid, AppOwnerModel>| #[trigger]
            with_user_owners(m, u, devices) == all.fold_left(m, note_owner()) by {
            lemma_fold_over_both(before, f(d), m, note_owner());
            let mid = with_user_owners(m, u, front);
            assert(mid == before.fold_left(m, note_owner()));
            assert(with_device_owners(mid, u, d, d.apps) == f(d).fold_left(mid, note_owner()));
        }
    } else {
        reveal(Seq::filter);
        assert(all =~= Seq::empty());
        assert(all.filter(is_another(h)).map_values(as_destination()) =~= Seq::empty());
    }
}

proof fn lemma_contact_listings(h: HeaderModel, contacts: Seq<ContactEntryModel>)
    ensures
        contact_destinations(h, contacts) == contacts.map_values(
            of_contact(),
        ).flatten_alt().filter(is_another(h)).map_values(as_destination()),
        forall|m: Map<Uuid, AppOwnerModel>| #[trigger]
            with_contact_owners(m, contacts) == contacts.map_values(
                of_contact(),
            ).flatten_alt().fold_left(m, note_owner()),
    decreases contacts.len(),
{
    let all = contacts.map_values(of_contact()).flatten_alt();
    if contacts.len() > 0 {
        let front = contacts.drop_last();
        let c = contacts.last();
        let before = front.map_values(of_contact()).flatten_alt();
        let mine = of_contact()(c);
        lemma_contact_listings(h, front);
        lemma_user_listings(h, contact_view(c), c.devices);
        assert(contacts.map_values(of_contact()).drop_last() =~= front.map_values(of_contact()));
        assert(all == before + mine);
        lemma_destinations_of_both(h, before, mine);
        assert forall|m: Map<Uuid, AppOwnerModel>| #[trigger]
            with_contact_owners(m, contacts) == all.fold_left(m, note_owner()) by {
            lemma_fold_over_both(before, mine, m, note_owner());
            let mid = with_contact_owners(m, front);
            assert(mid == before.fold_left(m, note_owner()));
            assert(with_user_owners(mid, contact_view(c), c.devices) == mine.fold_left(
                mid,
                note_owner(),
            ));
        }
    } else {
        reveal(Seq::filter);
        assert(all =~= Seq::empty());
        assert(all.filter(is_another(h)).map_values(as_destination()) =~= Seq::empty());
    }
}

/// After a full reply, the destinations are the listed apps, our own user's
/// first, but for this very client; and every app is known to belong to whom the
/// reply lists it under, the last listing counting.
pub proof fn listed_apps_are_known(n: NodeModel, h: HeaderModel, t: TopologyModel)
    ensures
        with_topology(n, h, t).destinations == listings(t).filter(is_another(h)).map_values(
            as_destination(),
        ),
        with_topology(n, h, t).app_owners == listings(t).fold_left(
            Map::<Uuid, AppOwnerModel>::empty(),
            note_owner(),
        ),
{
    let own = of_user(t.owner, true, ""@, t.devices);
    let rest = t.contacts.map_values(of_contact()).flatten_alt();
    lemma_user_listings(h, own_view(t), t.devices);
    lemma_contact_listings(h, t.contacts);
    lemma_destinations_of_both(h, own, rest);
    lemma_fold_over_both(own, rest, Map::<Uuid, AppOwnerModel>::empty(), note_owner());
}

/// The owner of an app is one that the reply lists it under; if it lists the app
/// once, that one.
pub proof fn owners_are_as_listed(n: NodeModel, h: HeaderModel, t: TopologyModel, i: int)
    requires
        0 <= i < listings(t).len(),
        forall|j: int|
            i < j < listings(t).len() ==> (#[trigger] listings(t)[j]).app.id
                != listings(t)[i].app.id,
    ensures
        with_topology(n, h, t).app_owners.contains_key(listings(t)[i].app.id),
        with_topology(n, h, t).app_owners[listings(t)[i].app.id] == belongs(listings(t)[i]),
{
    listed_apps_are_known(n, h, t);
    lemma_last_owner(listings(t), Map::empty(), i);
}

proof fn lemma_last_owner(ls: Seq<Listing>, m: Map<Uuid, AppOwnerModel>, i: int)
    requires
        0 <= i < ls.len(),
        forall|j: int| i < j < ls.len() ==> (#[trigger] ls[j]).app.id != ls[i].app.id,
    ensures
        ls.fold_left(m, note_owner()).contains_key(ls[i].app.id),
        ls.fold_left(m, note_owner())[ls[i].app.id] == belongs(ls[i]),
    decreases ls.len(),
{
    if i < ls.len() - 1 {
        let front = ls.drop_last();
        assert forall|j: int| i < j < front.len() implies (#[trigger] front[j]).app.id
            != front[i].app.id by {
            assert(front[j] == ls[j]);
        }
        lemma_last_owner(front, m, i);
        assert(ls[ls.len() - 1].app.id != ls[i].app.id);
    }
}

// ── The directory ────────────────────────────────────────────────────────────

/// The chat app of a device is the first of its apps with the chat alias.
pub proof fn chat_app_is_the_first(apps: Seq<AppEntryModel>)
    ensures
        match chat_app(apps) {
            Some(a) => exists|j: int|
                0 <= j < apps.len() && (#[trigger] apps[j]).id == a && apps[j].alias
                    == "pnet-chat"@ && forall|k: int|
                    0 <= k < j ==> (#[trigger] apps[k]).alias != "pnet-chat"@,
            None => forall|k: int| 0 <= k < apps.len() ==> (#[trigger] apps[k]).alias
                != "pnet-chat"@,
        },
    decreases apps.len(),
{
    if apps.len() > 0 {
        let front = apps.drop_last();
        chat_app_is_the_first(front);
        match chat_app(front) {
            Some(a) => {
                let j = choose|j: int|
                    0 <= j < front.len() && (#[trigger] front[j]).id == a && front[j].alias
                        == "pnet-chat"@ && forall|k: int|
                        0 <= k < j ==> (#[trigger] front[k]).alias != "pnet-chat"@;
                assert forall|k: int| 0 <= k < j implies (#[trigger] apps[k]).alias
                    != "pnet-chat"@ by {
                    assert(front[k] == apps[k]);
                }
                assert(apps[j] == front[j]);
                assert(apps[j].id == a);
            },
            None => {
                assert forall|k: int| 0 <= k < front.len() implies (#[trigger] apps[k]).alias
                    != "pnet-chat"@ by {
                    assert(front[k] == apps[k]);
                }
                assert(apps[apps.len() - 1] == apps.last());
            },
        }
    }
}

/// The SGs.
pub open spec fn is_sg() -> spec_fn(DeviceEntryModel) -> bool {
    |d: DeviceEntryModel| d.grade == 1
}

/// An SG with its rank and its chat app.
pub open spec fn as_sg() -> spec_fn(DeviceEntryModel) -> SgEntry {
    |d: DeviceEntryModel| (d.id, d.sg_rank, chat_app(d.apps))
}

/// The SGs of a user are those among the devices, each with its own rank and its
/// own chat app, in their order.
pub proof fn sgs_are_exact(devices: Seq<DeviceEntryModel>)
    ensures
        sgs_of(devices) == devices.filter(is_sg()).map_values(as_sg()),
    decreases devices.len(),
{
    reveal(Seq::filter);
    let out = devices.filter(is_sg()).map_values(as_sg());
    if devices.len() > 0 {
        sgs_are_exact(devices.drop_last());
        let front = devices.drop_last().filter(is_sg());
        assert(out =~= if is_sg()(devices.last()) {
            front.map_values(as_sg()).push(as_sg()(devices.last()))
        } else {
            front.map_values(as_sg())
        });
    } else {
        assert(out =~= Seq::empty());
    }
}

/// Whether a directory entry is what a reply says of a user.
pub open spec fn describes(
    e: UserDirModel,
    alias: Seq<char>,
    own: bool,
    devices: Seq<DeviceEntryModel>,
) -> bool {
    e.alias == alias && e.own == own && e.sgs == devices.filter(is_sg()).map_values(as_sg())
}

/// Whether no later contact bears the identifier of the `c`-th.
pub open spec fn last_of_its_id(contacts: Seq<ContactEntryModel>, c: int) -> bool {
    forall|k: int| c < k < contacts.len() ==> (#[trigger] contacts[k]).id != contacts[c].id
}

proof fn lemma_with_contacts(
    directory: Map<Uuid, UserDirModel>,
    contacts: Seq<ContactEntryModel>,
)
    ensures
        ({
            let out = with_contacts(directory, contacts);
            &&& forall|c: int|
                0 <= c < contacts.len() && #[trigger] last_of_its_id(contacts, c)
                    ==> out.contains_key(contacts[c].id) && describes(
                    out[contacts[c].id],
                    contacts[c].alias,
                    false,
                    contacts[c].devices,
                )
            &&& forall|u: Uuid|
                (forall|c: int| 0 <= c < contacts.len() ==> (#[trigger] contacts[c]).id != u) ==> (
                #[trigger] out.contains_key(u) <==> directory.contains_key(u)) && (out.contains_key(
                    u,
                ) ==> out[u] == directory[u])
        }),
    decreases contacts.len(),
{
    if contacts.len() > 0 {
        let front = contacts.drop_last();
        let last = contacts.last();
        let mid = with_contacts(directory, front);
        let out = with_contacts(directory, contacts);
        lemma_with_contacts(directory, front);
        sgs_are_exact(last.devices);
        assert forall|c: int|
            0 <= c < contacts.len() && #[trigger] last_of_its_id(contacts, c) implies
            out.contains_key(contacts[c].id) && describes(
            out[contacts[c].id],
            contacts[c].alias,
            false,
            contacts[c].devices,
        ) by {
            if c < front.len() {
                assert(front[c] == contacts[c]);
                assert forall|k: int| c < k < front.len() implies (#[trigger] front[k]).id
                    != front[c].id by {
                    assert(front[k] == contacts[k]);
                }
                assert(last_of_its_id(front, c));
                assert(contacts[contacts.len() - 1].id != contacts[c].id);
            }
        }
        assert forall|u: Uuid|
            (forall|c: int| 0 <= c < contacts.len() ==> (#[trigger] contacts[c]).id != u) implies (
        #[trigger] out.contains_key(u) <==> directory.contains_key(u)) && (out.contains_key(u)
            ==> out[u] == directory[u]) by {
            assert forall|c: int| 0 <= c < front.len() implies (#[trigger] front[c]).id != u by {
                assert(front[c] == contacts[c]);
            }
            assert(contacts[contacts.len() - 1].id != u);
            assert(mid.contains_key(u) <==> directory.contains_key(u));
        }
    }
}

/// After a full reply, the directory has an entry for our own user and for each
/// listed contact, and no other. A contact's entry holds that contact's alias and
/// the SGs among that contact's own devices; our own holds ours. (A contact who
/// is listed twice counts as listed last, also one with our own identifier.)
pub proof fn directory_is_as_listed(n: NodeModel, h: HeaderModel, t: TopologyModel, c: int, u: Uuid)
    ensures
        ({
            let d = with_topology(n, h, t).directory;
            &&& 0 <= c < t.contacts.len() && last_of_its_id(t.contacts, c) ==> d.contains_key(
                t.contacts[c].id,
            ) && describes(d[t.contacts[c].id], t.contacts[c].alias, false, t.contacts[c].devices)
            &&& (forall|k: int| 0 <= k < t.contacts.len() ==> (#[trigger] t.contacts[k]).id != u)
                ==> (d.contains_key(u) <==> u == t.owner) && (u == t.owner ==> describes(
                d[u],
                t.owner_alias,
                true,
                t.devices,
            ))
        }),
{
    let first = Map::<Uuid, UserDirModel>::empty().insert(t.owner, own_entry(t));
    let out = with_topology(n, h, t).directory;
    assert(out == with_contacts(first, t.contacts));
    lemma_with_contacts(first, t.contacts);
    sgs_are_exact(t.devices);
    if forall|k: int| 0 <= k < t.contacts.len() ==> (#[trigger] t.contacts[k]).id != u {
        assert(out.contains_key(u) <==> first.contains_key(u));
    }
}

/// Where a listed contact is reached is a device that the reply lists under that
/// contact: an SG of theirs that runs the chat app, on that device's own chat
/// app, and the foremost of them.
#[verifier::rlimit(30)]
pub proof fn contacts_are_reached_at_their_own_devices(
    n: NodeModel,
    h: HeaderModel,
    t: TopologyModel,
    c: int,
)
    requires
        0 <= c < t.contacts.len(),
        last_of_its_id(t.contacts, c),
    ensures
        ({
            let devices = t.contacts[c].devices;
            match reach(with_topology(n, h, t).directory, t.contacts[c].id) {
                Some((dev, app)) => exists|k: int|
                    #[trigger] runs_foremost(devices, k) && devices[k].id == dev && chat_app(
                        devices[k].apps,
                    ) == Some(app),
                None => forall|k: int|
                    0 <= k < devices.len() && (#[trigger] devices[k]).grade == 1 ==> chat_app(
                        devices[k].apps,
                    ) is None,
            }
        }),
{
    let d = with_topology(n, h, t).directory;
    let user = t.contacts[c].id;
    let devices = t.contacts[c].devices;
    directory_is_as_listed(n, h, t, c, user);
    users_are_reached_at_their_own_sg(d, user);
    let sgs = d[user].sgs;
    match reach(d, user) {
        Some((dev, app)) => {
            let k = choose|k: int|
                #[trigger] is_foremost(sgs, k) && sgs[k].0 == dev && sgs[k].2 == Some(app);
            let x = lemma_device_of_sg(devices, k);
            assert forall|i: int|
                0 <= i < devices.len() && (#[trigger] devices[i]).grade == 1 && chat_app(
                    devices[i].apps,
                ) is Some implies devices[x].sg_rank < devices[i].sg_rank || (devices[x].sg_rank
                == devices[i].sg_rank && key(devices[x].id) <= key(devices[i].id)) by {
                let j = lemma_sg_of_device(devices, i);
                assert(sgs[j].2 is Some);
            }
            assert(runs_foremost(devices, x));
        },
        None => {
            assert forall|k: int|
                0 <= k < devices.len() && (#[trigger] devices[k]).grade == 1 implies chat_app(
                devices[k].apps,
            ) is None by {
                let j = lemma_sg_of_device(devices, k);
                assert(sgs[j].2 is None);
            }
        },
    }
}

/// Whether the `k`-th device is an SG that runs the chat app, and no other such
/// has a lower rank, or the same rank and a lower identifier.
pub open spec fn runs_foremost(devices: Seq<DeviceEntryModel>, k: int) -> bool {
    &&& 0 <= k < devices.len()
    &&& devices[k].grade == 1
    &&& chat_app(devices[k].apps) is Some
    &&& forall|i: int|
        0 <= i < devices.len() && (#[trigger] devices[i]).grade == 1 && chat_app(
            devices[i].apps,
        ) is Some ==> devices[k].sg_rank < devices[i].sg_rank || (devices[k].sg_rank
            == devices[i].sg_rank && key(devices[k].id) <= key(devices[i].id))
}

/// Whether the `i`-th device is an SG.
pub open spec fn listed_sg(devices: Seq<DeviceEntryModel>, i: int) -> bool {
    0 <= i < devices.len() && devices[i].grade == 1
}

proof fn lemma_sg_of_device(devices: Seq<DeviceEntryModel>, i: int) -> (j: int)
    requires
        listed_sg(devices, i),
    ensures
        0 <= j < devices.filter(is_sg()).len(),
        devices.filter(is_sg()).map_values(as_sg())[j] == as_sg()(devices[i]),
{
    let kept = devices.filter(is_sg());
    devices.lemma_filter_contains(is_sg(), i);
    let j = choose|j: int| 0 <= j < kept.len() && kept[j] == devices[i];
    j
}

proof fn lemma_device_of_sg(devices: Seq<DeviceEntryModel>, j: int) -> (i: int)
    requires
        0 <= j < devices.filter(is_sg()).len(),
    ensures
        listed_sg(devices, i),
        as_sg()(devices[i]) == devices.filter(is_sg()).map_values(as_sg())[j],
{
    let kept = devices.filter(is_sg());
    devices.lemma_filter_pred(is_sg(), j);
    assert(kept.contains(kept[j]));
    devices.lemma_filter_contains_rev(is_sg(), kept[j]);
    let i = choose|i: int| 0 <= i < devices.len() && devices[i] == kept[j];
    i
}

// ── The role ─────────────────────────────────────────────────────────────────

/// Whether the `k`-th device is the User Agent's: an SG such that no other has a
/// lower rank, or the same rank and a lower identifier, nor is it listed before.
pub open spec fn ranks_foremost(devices: Seq<DeviceEntryModel>, k: int) -> bool {
    &&& 0 <= k < devices.len()
    &&& devices[k].grade == 1
    &&& forall|i: int|
        0 <= i < devices.len() && i != k && (#[trigger] devices[i]).grade == 1 ==> {
            ||| devices[k].sg_rank < devices[i].sg_rank
            ||| devices[k].sg_rank == devices[i].sg_rank && key(devices[k].id) < key(devices[i].id)
            ||| devices[k].sg_rank == devices[i].sg_rank && devices[k].id == devices[i].id && k < i
        }
}

/// Whether the `l`-th device is the local one, in its last listing.
pub open spec fn is_local(h: HeaderModel, devices: Seq<DeviceEntryModel>, l: int) -> bool {
    &&& 0 <= l < devices.len()
    &&& devices[l].id == h.local_device
    &&& forall|i: int| l < i < devices.len() ==> (#[trigger] devices[i]).id != h.local_device
}

proof fn lemma_local(h: HeaderModel, devices: Seq<DeviceEntryModel>, l: int)
    requires
        is_local(h, devices, l),
    ensures
        local_grade(devices, h.local_device) == Some((devices[l].grade, devices[l].sg_rank)),
    decreases devices.len(),
{
    if l < devices.len() - 1 {
        let front = devices.drop_last();
        assert(devices[devices.len() - 1].id != h.local_device);
        assert forall|i: int| l < i < front.len() implies (#[trigger] front[i]).id
            != h.local_device by {
            assert(front[i] == devices[i]);
        }
        lemma_local(h, front, l);
    }
}

proof fn lemma_not_local(h: HeaderModel, devices: Seq<DeviceEntryModel>)
    requires
        forall|i: int| 0 <= i < devices.len() ==> (#[trigger] devices[i]).id != h.local_device,
    ensures
        local_grade(devices, h.local_device) is None,
    decreases devices.len(),
{
    if devices.len() > 0 {
        let front = devices.drop_last();
        assert(devices[devices.len() - 1].id != h.local_device);
        assert forall|i: int| 0 <= i < front.len() implies (#[trigger] front[i]).id
            != h.local_device by {
            assert(front[i] == devices[i]);
        }
        lemma_not_local(h, front);
    }
}

proof fn lemma_foremost(devices: Seq<DeviceEntryModel>, k: int)
    requires
        ranks_foremost(devices, k),
    ensures
        top_sg(devices) == Some(devices[k]),
    decreases devices.len(),
{
    broadcast use lemma_key_injective;

    let front = devices.drop_last();
    let d = devices[devices.len() - 1];
    if k < front.len() {
        assert(front[k] == devices[k]);
        assert forall|i: int|
            0 <= i < front.len() && i != k && (#[trigger] front[i]).grade == 1 implies {
            ||| front[k].sg_rank < front[i].sg_rank
            ||| front[k].sg_rank == front[i].sg_rank && key(front[k].id) < key(front[i].id)
            ||| front[k].sg_rank == front[i].sg_rank && front[k].id == front[i].id && k < i
        } by {
            assert(front[i] == devices[i]);
        }
        lemma_foremost(front, k);
        if d.grade == 1 {
            assert(!sg_before(d.sg_rank, d.id, devices[k].sg_rank, devices[k].id));
        }
    } else {
        top_sg_is_foremost(front);
        if let Some(b) = top_sg(front) {
            let i = choose|i: int| 0 <= i < front.len() && front[i] == b;
            assert(devices[i] == b);
            assert(sg_before(d.sg_rank, d.id, b.sg_rank, b.id));
        }
    }
}

/// What a node is for its user follows from its own devices. Not listed, it does
/// not know. An SG that ranks before all others acts as the User Agent, and names
/// itself; another SG stands by; anything else is a guest. Those that do not act
/// name the SG that ranks foremost, with its own chat app, or nobody if there is
/// no SG.
pub proof fn role_follows_from_rank(
    h: HeaderModel,
    devices: Seq<DeviceEntryModel>,
    l: int,
    k: int,
)
    ensures
        ({
            let (role, ua) = role_and_ua(h, devices);
            let acts = devices[k].id == h.local_device;
            &&& (forall|i: int|
                0 <= i < devices.len() ==> (#[trigger] devices[i]).id != h.local_device) ==> role
                == Role::Unknown && ua is None
            &&& is_local(h, devices, l) && devices[l].grade != 1 ==> role == Role::DataGuest
            &&& is_local(h, devices, l) && (forall|i: int|
                0 <= i < devices.len() ==> (#[trigger] devices[i]).grade != 1) ==> ua is None
            &&& is_local(h, devices, l) && ranks_foremost(devices, k) && devices[l].grade == 1
                ==> role == (if acts {
                Role::UserAgent
            } else {
                Role::SgStandby
            })
            &&& is_local(h, devices, l) && ranks_foremost(devices, k) ==> (ua matches Some(r)
                && r.device_uuid == devices[k].id && r.device_uuid_hex == hex_chars(
                devices[k].id@,
            ) && r.label == devices[k].alias && r.sg_rank == (if role == Role::UserAgent {
                devices[l].sg_rank
            } else {
                devices[k].sg_rank
            }) && r.is_self == (role == Role::UserAgent) && r.app_id == (if role
                == Role::UserAgent {
                Some(h.app_id)
            } else {
                chat_app(devices[k].apps)
            }) && r.app_id_hex == match r.app_id {
                Some(a) => Some(hex_chars(a@)),
                None => None,
            })
        }),
{
    top_sg_is_foremost(devices);
    if is_local(h, devices, l) {
        lemma_local(h, devices, l);
    }
    if forall|i: int| 0 <= i < devices.len() ==> (#[trigger] devices[i]).id != h.local_device {
        lemma_not_local(h, devices);
    }
    if ranks_foremost(devices, k) {
        lemma_foremost(devices, k);
    }
    if let Some(t) = top_sg(devices) {
        let x = choose|x: int| 0 <= x < devices.len() && devices[x] == t;
        assert(devices[x].grade == 1);
    }
}

/// A reply that reads in full makes the node know itself as the reply says, and
/// leaves its token, its rooms, its clients and its log alone. One that reads as
/// far as its header only tells the node about its app.
pub proof fn replies_say_who_we_are(n: NodeModel, reply: Seq<u8>)
    ensures
        ({
            let after = after_get_data(n, reply);
            match header_at(reply) {
                Some((h, p)) => {
                    &&& after.app_info == Some(
                        AppInfoModel {
                            id_hex: hex_chars(h.app_id@),
                            alias: h.alias,
                            approved: h.approved,
                        },
                    )
                    &&& topology_at(reply, p) matches Some(t) ==> {
                        &&& after.own_user_uuid == Some(t.owner)
                        &&& after.local_device == Some(h.local_device)
                        &&& after.local_app_id == Some(h.app_id)
                        &&& (after.role, after.ua) == role_and_ua(h, t.devices)
                        &&& after == with_topology(
                            NodeModel { app_info: after.app_info, ..n },
                            h,
                            t,
                        )
                        &&& after == (NodeModel {
                            app_info: after.app_info,
                            destinations: after.destinations,
                            app_owners: after.app_owners,
                            directory: after.directory,
                            own_user_uuid: after.own_user_uuid,
                            local_device: after.local_device,
                            local_app_id: after.local_app_id,
                            role: after.role,
                            ua: after.ua,
                            ..n
                        })
                    }
                    &&& topology_at(reply, p) is None ==> after == (NodeModel {
                        app_info: after.app_info,
                        ..n
                    })
                },
                None => after == n,
            }
        }),
{
}

/// A reply that does not start with success changes nothing. One that does is
/// taken over, and its time is noted once the node knows about itself.
pub proof fn fetches_are_taken_over(n: NodeModel, reply: Seq<u8>, now: u64)
    ensures
        ({
            let after = after_fetch(n, reply, now);
            let taken = after_get_data(n, reply);
            &&& reply.len() == 0 || reply[0] != 0 ==> after == n
            &&& reply.len() > 0 && reply[0] == 0 ==> after == (NodeModel {
                last_fetch_ok: after.last_fetch_ok,
                ..taken
            })
            &&& reply.len() > 0 && reply[0] == 0 ==> after.last_fetch_ok == (
            if taken.app_info is Some {
                Some(now)
            } else {
                n.last_fetch_ok
            })
        }),
{
}

} // verus!
