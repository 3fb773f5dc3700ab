//! How a reply of the daemon is read: as what it lists, and as nothing if it does
//! not list it in full.

use crate::bytes::{lemma_be_bytes_len, lemma_bytes_back, lemma_pow256_values};
use crate::bytes::{lemma_prefixed_back, lemma_uuid_back, lemma_uuid_of_view, lemma_view_of_uuid};
use crate::bytes::{many_at, many_bytes, str_at, str_bytes, uuid_at, Uuid};
use crate::laws::wire::{lemma_str_from, lemma_uuid_from};
use crate::round_trip::fits_str;
use crate::snapshot::{app_item, contact_item, counted_at, device_item, header_at, host_item};
use crate::snapshot::{registered_token, topology_at, AppEntryModel, ContactEntryModel};
use crate::snapshot::{DeviceEntryModel, HeaderModel, TopologyModel};
use vstd::prelude::*;
use vstd::utf8::encode_utf8;

verus! {

// ── What the daemon writes ───────────────────────────────────────────────────

/// An app as the daemon writes it: with bytes behind it that are not kept.
pub struct WrittenApp {
    pub id: Uuid,
    pub alias: Seq<char>,
    pub rest: Seq<u8>,
}

/// A device as the daemon writes it, with the names it is reached under.
pub struct WrittenDevice {
    pub id: Uuid,
    pub alias: Seq<char>,
    pub grade: u8,
    pub sg_rank: u8,
    pub hosts: Seq<Seq<char>>,
    pub apps: Seq<WrittenApp>,
}

/// A contact as the daemon writes it.
pub struct WrittenContact {
    pub alias: Seq<char>,
    pub id: Uuid,
    pub devices: Seq<WrittenDevice>,
}

/// What precedes the listing.
pub struct WrittenHeader {
    pub status: u8,
    pub app_id: Uuid,
    pub alias: Seq<char>,
    pub address: Seq<u8>,
    pub approved: u8,
    pub token: Uuid,
    pub local_device: Uuid,
}

/// The listing.
pub struct WrittenListing {
    pub owner_alias: Seq<char>,
    pub owner: Uuid,
    pub devices: Seq<WrittenDevice>,
    pub contacts: Seq<WrittenContact>,
}

/// A list, after its length in one byte.
pub open spec fn counted_bytes<W>(enc: spec_fn(W) -> Seq<u8>, ws: Seq<W>) -> Seq<u8> {
    seq![ws.len() as u8] + many_bytes(enc, ws)
}

/// How an app is written.
pub open spec fn app_enc() -> spec_fn(WrittenApp) -> Seq<u8> {
    |a: WrittenApp| a.id@ + str_bytes(a.alias) + a.rest
}

/// How a host name is written.
pub open spec fn host_enc() -> spec_fn(Seq<char>) -> Seq<u8> {
    |h: Seq<char>| str_bytes(h)
}

/// How a device is written.
pub open spec fn device_enc() -> spec_fn(WrittenDevice) -> Seq<u8> {
    |d: WrittenDevice|
        d.id@ + str_bytes(d.alias) + seq![d.grade, d.sg_rank] + counted_bytes(host_enc(), d.hosts)
            + counted_bytes(app_enc(), d.apps)
}

/// How a contact is written.
pub open spec fn contact_enc() -> spec_fn(WrittenContact) -> Seq<u8> {
    |c: WrittenContact| str_bytes(c.alias) + c.id@ + counted_bytes(device_enc(), c.devices)
}

/// How the header is written.
pub open spec fn header_bytes(h: WrittenHeader) -> Seq<u8> {
    seq![h.status] + h.app_id@ + str_bytes(h.alias) + h.address + seq![h.approved] + h.token@
        + h.local_device@
}

/// How the listing is written.
pub open spec fn listing_bytes(l: WrittenListing) -> Seq<u8> {
    str_bytes(l.owner_alias) + l.owner@ + counted_bytes(device_enc(), l.devices) + counted_bytes(
        contact_enc(),
        l.contacts,
    )
}

// ── What the library makes of it ─────────────────────────────────────────────

/// An app, as it is kept.
pub open spec fn app_read() -> spec_fn(WrittenApp) -> AppEntryModel {
    |a: WrittenApp| AppEntryModel { id: a.id, alias: a.alias }
}

/// A host name, as it is read.
pub open spec fn host_read() -> spec_fn(Seq<char>) -> Seq<char> {
    |h: Seq<char>| h
}

/// A device, as it is kept.
pub open spec fn device_read() -> spec_fn(WrittenDevice) -> DeviceEntryModel {
    |d: WrittenDevice|
        DeviceEntryModel {
            id: d.id,
            alias: d.alias,
            grade: d.grade,
            sg_rank: d.sg_rank,
            apps: d.apps.map_values(app_read()),
        }
}

/// A contact, as it is kept.
pub open spec fn contact_read() -> spec_fn(WrittenContact) -> ContactEntryModel {
    |c: WrittenContact|
        ContactEntryModel {
            alias: c.alias,
            id: c.id,
            devices: c.devices.map_values(device_read()),
        }
}

/// The header, as it is kept.
pub open spec fn header_read(h: WrittenHeader) -> HeaderModel {
    HeaderModel {
        app_id: h.app_id,
        alias: h.alias,
        approved: h.approved != 0,
        local_device: h.local_device,
    }
}

/// The listing, as it is kept.
pub open spec fn listing_read(l: WrittenListing) -> TopologyModel {
    TopologyModel {
        owner_alias: l.owner_alias,
        owner: l.owner,
        devices: l.devices.map_values(device_read()),
        contacts: l.contacts.map_values(contact_read()),
    }
}

// ── What fits ────────────────────────────────────────────────────────────────

/// Whether each of a list is fine, and a byte counts them.
pub open spec fn all_fit<W>(fits: spec_fn(W) -> bool, ws: Seq<W>) -> bool {
    ws.len() < 0x100 && forall|i: int| 0 <= i < ws.len() ==> fits(#[trigger] ws[i])
}

/// Whether an app can be written. Seven bytes follow an app of our own user, none
/// an app of a contact.
pub open spec fn app_fits(extra: int) -> spec_fn(WrittenApp) -> bool {
    |a: WrittenApp| fits_str(a.alias) && a.rest.len() == extra
}

/// Whether a host name can be written.
pub open spec fn host_fits() -> spec_fn(Seq<char>) -> bool {
    |h: Seq<char>| fits_str(h)
}

/// Whether a device can be written.
pub open spec fn device_fits(extra: int) -> spec_fn(WrittenDevice) -> bool {
    |d: WrittenDevice|
        fits_str(d.alias) && all_fit(host_fits(), d.hosts) && all_fit(app_fits(extra), d.apps)
}

/// Whether a contact can be written.
pub open spec fn contact_fits() -> spec_fn(WrittenContact) -> bool {
    |c: WrittenContact| fits_str(c.alias) && all_fit(device_fits(0), c.devices)
}

/// Whether the header can be written.
pub open spec fn header_fits(h: WrittenHeader) -> bool {
    fits_str(h.alias) && h.address.len() == 6
}

/// Whether the listing can be written.
pub open spec fn listing_fits(l: WrittenListing) -> bool {
    fits_str(l.owner_alias) && all_fit(device_fits(7), l.devices) && all_fit(
        contact_fits(),
        l.contacts,
    )
}

// ── Reading what was written ─────────────────────────────────────────────────

/// Whether an item reads what was written, whatever stands around it.
#[verifier::opaque]
pub open spec fn reads<W, T>(
    item: spec_fn(Seq<u8>, int) -> Option<(T, int)>,
    enc: spec_fn(W) -> Seq<u8>,
    read: spec_fn(W) -> T,
    fits: spec_fn(W) -> bool,
) -> bool {
    forall|w: W, pre: Seq<u8>, post: Seq<u8>|
        fits(w) ==> #[trigger] item(pre + enc(w) + post, pre.len() as int) == Some(
            (read(w), (pre.len() + enc(w).len()) as int),
        )
}

/// Whether what an item reads was written.
#[verifier::opaque]
pub open spec fn reads_only<W, T>(
    item: spec_fn(Seq<u8>, int) -> Option<(T, int)>,
    enc: spec_fn(W) -> Seq<u8>,
    read: spec_fn(W) -> T,
    fits: spec_fn(W) -> bool,
) -> bool {
    forall|s: Seq<u8>, p: int|
        p >= 0 && (#[trigger] item(s, p)) is Some ==> exists|w: W| #[trigger]
            was_written(enc, read, fits, s, p, item(s, p)->0, w)
}

/// Whether what stands at `p` is the encoding of `w`, read as it should be.
pub open spec fn was_written<W, T>(
    enc: spec_fn(W) -> Seq<u8>,
    read: spec_fn(W) -> T,
    fits: spec_fn(W) -> bool,
    s: Seq<u8>,
    p: int,
    got: (T, int),
    w: W,
) -> bool {
    &&& p <= got.1 <= s.len()
    &&& s.subrange(p, got.1) == enc(w)
    &&& read(w) == got.0
    &&& fits(w)
}

proof fn lemma_many_read<W, T>(
    item: spec_fn(Seq<u8>, int) -> Option<(T, int)>,
    enc: spec_fn(W) -> Seq<u8>,
    read: spec_fn(W) -> T,
    fits: spec_fn(W) -> bool,
    ws: Seq<W>,
    pre: Seq<u8>,
    post: Seq<u8>,
)
    requires
        reads(item, enc, read, fits),
        forall|i: int| 0 <= i < ws.len() ==> fits(#[trigger] ws[i]),
    ensures
        many_at(item, pre + many_bytes(enc, ws) + post, pre.len() as int, ws.len()) == Some(
            (ws.map_values(read), (pre.len() + many_bytes(enc, ws).len()) as int),
        ),
    decreases ws.len(),
{
    reveal(reads);
    if ws.len() > 0 {
        let front = ws.drop_last();
        let w = ws.last();
        let whole = pre + many_bytes(enc, ws) + post;
        assert forall|i: int| 0 <= i < front.len() implies fits(#[trigger] front[i]) by {
            assert(front[i] == ws[i]);
        }
        lemma_many_read(item, enc, read, fits, front, pre, enc(w) + post);
        assert(pre + many_bytes(enc, front) + (enc(w) + post) =~= whole);
        let pre2 = pre + many_bytes(enc, front);
        assert(pre2 + enc(w) + post =~= whole);
        assert(fits(ws[ws.len() - 1]));
        assert(item(pre2 + enc(w) + post, pre2.len() as int) == Some(
            (read(w), (pre2.len() + enc(w).len()) as int),
        ));
        assert(front.map_values(read).push(read(w)) =~= ws.map_values(read));
    } else {
        assert(ws.map_values(read) =~= Seq::empty());
    }
}

proof fn lemma_counted_read<W, T>(
    item: spec_fn(Seq<u8>, int) -> Option<(T, int)>,
    enc: spec_fn(W) -> Seq<u8>,
    read: spec_fn(W) -> T,
    fits: spec_fn(W) -> bool,
    ws: Seq<W>,
    pre: Seq<u8>,
    post: Seq<u8>,
)
    requires
        reads(item, enc, read, fits),
        all_fit(fits, ws),
    ensures
        counted_at(item, pre + counted_bytes(enc, ws) + post, pre.len() as int) == Some(
            (ws.map_values(read), (pre.len() + counted_bytes(enc, ws).len()) as int),
        ),
{
    let one = seq![ws.len() as u8];
    let whole = pre + counted_bytes(enc, ws) + post;
    assert(whole[pre.len() as int] == ws.len() as u8);
    lemma_many_read(item, enc, read, fits, ws, pre + one, post);
    assert(pre + one + many_bytes(enc, ws) + post =~= whole);
}

proof fn lemma_many_only<W, T>(
    item: spec_fn(Seq<u8>, int) -> Option<(T, int)>,
    enc: spec_fn(W) -> Seq<u8>,
    read: spec_fn(W) -> T,
    fits: spec_fn(W) -> bool,
    s: Seq<u8>,
    p: int,
    n: nat,
) -> (ws: Seq<W>)
    requires
        reads_only(item, enc, read, fits),
        0 <= p <= s.len(),
        many_at(item, s, p, n) is Some,
    ensures
        ({
            let (ts, q) = many_at(item, s, p, n)->0;
            &&& ws.len() == n
            &&& p <= q <= s.len()
            &&& s.subrange(p, q) == many_bytes(enc, ws)
            &&& ws.map_values(read) == ts
            &&& forall|i: int| 0 <= i < ws.len() ==> fits(#[trigger] ws[i])
        }),
    decreases n,
{
    reveal(reads_only);
    if n > 0 {
        let front = lemma_many_only(item, enc, read, fits, s, p, (n - 1) as nat);
        let (ts, q) = many_at(item, s, p, (n - 1) as nat)->0;
        let (t, e) = item(s, q)->0;
        let w = choose|w: W| #[trigger] was_written(enc, read, fits, s, q, item(s, q)->0, w);
        assert(was_written(enc, read, fits, s, q, item(s, q)->0, w));
        let ws = front.push(w);
        assert(ws.drop_last() =~= front);
        assert(s.subrange(p, e) =~= s.subrange(p, q) + s.subrange(q, e));
        assert(ws.map_values(read) =~= ts.push(t));
        assert forall|i: int| 0 <= i < ws.len() implies fits(#[trigger] ws[i]) by {
            if i < front.len() {
                assert(ws[i] == front[i]);
            }
        }
        ws
    } else {
        let ws = Seq::<W>::empty();
        assert(s.subrange(p, p) =~= Seq::empty());
        assert(ws.map_values(read) =~= Seq::empty());
        ws
    }
}

proof fn lemma_counted_only<W, T>(
    item: spec_fn(Seq<u8>, int) -> Option<(T, int)>,
    enc: spec_fn(W) -> Seq<u8>,
    read: spec_fn(W) -> T,
    fits: spec_fn(W) -> bool,
    s: Seq<u8>,
    p: int,
) -> (ws: Seq<W>)
    requires
        reads_only(item, enc, read, fits),
        0 <= p,
        counted_at(item, s, p) is Some,
    ensures
        ({
            let (ts, q) = counted_at(item, s, p)->0;
            &&& p < q <= s.len()
            &&& s.subrange(p, q) == counted_bytes(enc, ws)
            &&& ws.map_values(read) == ts
            &&& all_fit(fits, ws)
        }),
{
    let n = s[p];
    let ws = lemma_many_only(item, enc, read, fits, s, p + 1, n as nat);
    let (ts, q) = many_at(item, s, p + 1, n as nat)->0;
    assert(s.subrange(p, q) =~= seq![n] + s.subrange(p + 1, q));
    ws
}

proof fn lemma_str_read(pre: Seq<u8>, t: Seq<char>, post: Seq<u8>)
    requires
        fits_str(t),
    ensures
        str_at(pre + str_bytes(t) + post, pre.len() as int) == Some(
            (t, (pre.len() + str_bytes(t).len()) as int),
        ),
{
    lemma_pow256_values();
    lemma_be_bytes_len(encode_utf8(t).len(), 1);
    lemma_prefixed_back(pre, t, 1, post);
}

proof fn lemma_three(pre: Seq<u8>, a: Seq<u8>, b: Seq<u8>, c: Seq<u8>, post: Seq<u8>)
    ensures
        pre + a + (b + c + post) == pre + (a + b + c) + post,
        pre + a + b + (c + post) == pre + (a + b + c) + post,
        pre + a + b + c + post == pre + (a + b + c) + post,
{
    let whole = pre + (a + b + c) + post;
    assert(pre + a + (b + c + post) =~= whole);
    assert(pre + a + b + (c + post) =~= whole);
    assert(pre + a + b + c + post =~= whole);
}

proof fn lemma_four(
    pre: Seq<u8>,
    a: Seq<u8>,
    b: Seq<u8>,
    c: Seq<u8>,
    d: Seq<u8>,
    post: Seq<u8>,
)
    ensures
        pre + a + (b + c + d + post) == pre + (a + b + c + d) + post,
        pre + a + b + (c + d + post) == pre + (a + b + c + d) + post,
        pre + a + b + c + (d + post) == pre + (a + b + c + d) + post,
        pre + a + b + c + d + post == pre + (a + b + c + d) + post,
{
    let whole = pre + (a + b + c + d) + post;
    assert(pre + a + (b + c + d + post) =~= whole);
    assert(pre + a + b + (c + d + post) =~= whole);
    assert(pre + a + b + c + (d + post) =~= whole);
    assert(pre + a + b + c + d + post =~= whole);
}

proof fn lemma_five(
    pre: Seq<u8>,
    a: Seq<u8>,
    b: Seq<u8>,
    c: Seq<u8>,
    d: Seq<u8>,
    e: Seq<u8>,
    post: Seq<u8>,
)
    ensures
        pre + a + (b + c + d + e + post) == pre + (a + b + c + d + e) + post,
        pre + a + b + (c + d + e + post) == pre + (a + b + c + d + e) + post,
        pre + a + b + c + d + (e + post) == pre + (a + b + c + d + e) + post,
        pre + a + b + c + d + e + post == pre + (a + b + c + d + e) + post,
{
    let whole = pre + (a + b + c + d + e) + post;
    assert(pre + a + (b + c + d + e + post) =~= whole);
    assert(pre + a + b + (c + d + e + post) =~= whole);
    assert(pre + a + b + c + d + (e + post) =~= whole);
    assert(pre + a + b + c + d + e + post =~= whole);
}

proof fn lemma_hosts()
    ensures
        reads(host_item(), host_enc(), host_read(), host_fits()),
        reads_only(host_item(), host_enc(), host_read(), host_fits()),
{
    reveal(reads);
    reveal(reads_only);
    assert forall|w: Seq<char>, pre: Seq<u8>, post: Seq<u8>| host_fits()(w) implies #[trigger]
        host_item()(pre + host_enc()(w) + post, pre.len() as int) == Some(
        (host_read()(w), (pre.len() + host_enc()(w).len()) as int),
    ) by {
        lemma_str_read(pre, w, post);
    }
    assert forall|s: Seq<u8>, p: int|
        p >= 0 && (#[trigger] host_item()(s, p)) is Some implies exists|w: Seq<char>| #[trigger]
        was_written(host_enc(), host_read(), host_fits(), s, p, host_item()(s, p)->0, w) by {
        lemma_str_from(s, p);
        let (t, e) = host_item()(s, p)->0;
        assert(was_written(host_enc(), host_read(), host_fits(), s, p, host_item()(s, p)->0, t));
    }
}

proof fn lemma_app_read(extra: int, w: WrittenApp, pre: Seq<u8>, post: Seq<u8>)
    requires
        extra >= 0,
        app_fits(extra)(w),
    ensures
        app_item(extra)(pre + app_enc()(w) + post, pre.len() as int) == Some(
            (app_read()(w), (pre.len() + app_enc()(w).len()) as int),
        ),
{
    let a = str_bytes(w.alias);
    lemma_three(pre, w.id@, a, w.rest, post);
    lemma_uuid_back(pre, w.id, a + w.rest + post);
    lemma_str_read(pre + w.id@, w.alias, w.rest + post);
    lemma_bytes_back(pre + w.id@ + a, w.rest, post);
}

proof fn lemma_app_only(extra: int, s: Seq<u8>, p: int) -> (w: WrittenApp)
    requires
        extra >= 0,
        p >= 0,
        app_item(extra)(s, p) is Some,
    ensures
        was_written(
            app_enc(),
            app_read(),
            app_fits(extra),
            s,
            p,
            app_item(extra)(s, p)->0,
            w,
        ),
{
    lemma_uuid_from(s, p);
    lemma_str_from(s, p + 16);
    let (a, f) = app_item(extra)(s, p)->0;
    let e = (str_at(s, p + 16)->0).1;
    let w = WrittenApp { id: a.id, alias: a.alias, rest: s.subrange(e, e + extra) };
    assert(s.subrange(p, f) =~= s.subrange(p, p + 16) + s.subrange(p + 16, e) + s.subrange(e, f));
    w
}

proof fn lemma_apps(extra: int)
    requires
        extra >= 0,
    ensures
        reads(app_item(extra), app_enc(), app_read(), app_fits(extra)),
        reads_only(app_item(extra), app_enc(), app_read(), app_fits(extra)),
{
    reveal(reads);
    reveal(reads_only);
    assert forall|w: WrittenApp, pre: Seq<u8>, post: Seq<u8>|
        app_fits(extra)(w) implies #[trigger] app_item(extra)(
        pre + app_enc()(w) + post,
        pre.len() as int,
    ) == Some(
        (app_read()(w), (pre.len() + app_enc()(w).len()) as int),
    ) by {
        lemma_app_read(extra, w, pre, post);
    }
    assert forall|s: Seq<u8>, p: int|
        p >= 0 && (#[trigger] app_item(extra)(s, p)) is Some implies exists|w: WrittenApp|
     #[trigger]
        was_written(
            app_enc(),
            app_read(),
            app_fits(extra),
            s,
            p,
            app_item(extra)(s, p)->0,
            w,
        ) by {
        let w = lemma_app_only(extra, s, p);
    }
}

#[verifier::rlimit(30)]
proof fn lemma_device_read(extra: int, w: WrittenDevice, pre: Seq<u8>, post: Seq<u8>)
    requires
        extra >= 0,
        device_fits(extra)(w),
    ensures
        device_item(extra)(pre + device_enc()(w) + post, pre.len() as int) == Some(
            (device_read()(w), (pre.len() + device_enc()(w).len()) as int),
        ),
{
    lemma_hosts();
    lemma_apps(extra);
    let whole = pre + device_enc()(w) + post;
    let a = str_bytes(w.alias);
    let g = seq![w.grade, w.sg_rank];
    let hs = counted_bytes(host_enc(), w.hosts);
    let aps = counted_bytes(app_enc(), w.apps);
    lemma_five(pre, w.id@, a, g, hs, aps, post);
    lemma_uuid_back(pre, w.id, a + g + hs + aps + post);
    lemma_str_read(pre + w.id@, w.alias, g + hs + aps + post);
    let e = (pre + w.id@ + a).len() as int;
    assert(pre + w.id@ + a + g + (hs + aps + post) =~= pre + w.id@ + a + (g + hs + aps + post));
    assert(whole[e] == g[0] && whole[e + 1] == g[1]);
    lemma_counted_read(
        host_item(),
        host_enc(),
        host_read(),
        host_fits(),
        w.hosts,
        pre + w.id@ + a + g,
        aps + post,
    );
    lemma_counted_read(
        app_item(extra),
        app_enc(),
        app_read(),
        app_fits(extra),
        w.apps,
        pre + w.id@ + a + g + hs,
        post,
    );
}

#[verifier::rlimit(30)]
proof fn lemma_device_only(extra: int, s: Seq<u8>, p: int) -> (w: WrittenDevice)
    requires
        extra >= 0,
        p >= 0,
        device_item(extra)(s, p) is Some,
    ensures
        was_written(
            device_enc(),
            device_read(),
            device_fits(extra),
            s,
            p,
            device_item(extra)(s, p)->0,
            w,
        ),
{
    lemma_hosts();
    lemma_apps(extra);
    lemma_uuid_from(s, p);
    lemma_str_from(s, p + 16);
    let (d, f) = device_item(extra)(s, p)->0;
    let e = (str_at(s, p + 16)->0).1;
    let hosts = lemma_counted_only(host_item(), host_enc(), host_read(), host_fits(), s, e + 2);
    let h = (counted_at(host_item(), s, e + 2)->0).1;
    let apps = lemma_counted_only(app_item(extra), app_enc(), app_read(), app_fits(extra), s, h);
    let w = WrittenDevice {
        id: d.id,
        alias: d.alias,
        grade: d.grade,
        sg_rank: d.sg_rank,
        hosts,
        apps,
    };
    assert(s.subrange(p, f) =~= s.subrange(p, p + 16) + s.subrange(p + 16, e) + seq![
        s[e],
        s[e + 1],
    ] + s.subrange(e + 2, h) + s.subrange(h, f));
    w
}

proof fn lemma_devices(extra: int)
    requires
        extra >= 0,
    ensures
        reads(device_item(extra), device_enc(), device_read(), device_fits(extra)),
        reads_only(device_item(extra), device_enc(), device_read(), device_fits(extra)),
{
    reveal(reads);
    reveal(reads_only);
    assert forall|w: WrittenDevice, pre: Seq<u8>, post: Seq<u8>|
        device_fits(extra)(w) implies #[trigger] device_item(extra)(
        pre + device_enc()(w) + post,
        pre.len() as int,
    ) == Some(
        (device_read()(w), (pre.len() + device_enc()(w).len()) as int),
    ) by {
        lemma_device_read(extra, w, pre, post);
    }
    assert forall|s: Seq<u8>, p: int|
        p >= 0 && (#[trigger] device_item(extra)(s, p)) is Some implies exists|w: WrittenDevice|
     #[trigger]
        was_written(
            device_enc(),
            device_read(),
            device_fits(extra),
            s,
            p,
            device_item(extra)(s, p)->0,
            w,
        ) by {
        let w = lemma_device_only(extra, s, p);
    }
}

#[verifier::rlimit(30)]
proof fn lemma_contact_read(w: WrittenContact, pre: Seq<u8>, post: Seq<u8>)
    requires
        contact_fits()(w),
    ensures
        contact_item()(pre + contact_enc()(w) + post, pre.len() as int) == Some(
            (contact_read()(w), (pre.len() + contact_enc()(w).len()) as int),
        ),
{
    lemma_devices(0);
    let a = str_bytes(w.alias);
    let ds = counted_bytes(device_enc(), w.devices);
    lemma_three(pre, a, w.id@, ds, post);
    lemma_str_read(pre, w.alias, w.id@ + ds + post);
    lemma_uuid_back(pre + a, w.id, ds + post);
    lemma_counted_read(
        device_item(0),
        device_enc(),
        device_read(),
        device_fits(0),
        w.devices,
        pre + a + w.id@,
        post,
    );
}

#[verifier::rlimit(30)]
proof fn lemma_contact_only(s: Seq<u8>, p: int) -> (w: WrittenContact)
    requires
        p >= 0,
        contact_item()(s, p) is Some,
    ensures
        was_written(
            contact_enc(),
            contact_read(),
            contact_fits(),
            s,
            p,
            contact_item()(s, p)->0,
            w,
        ),
{
    lemma_devices(0);
    lemma_str_from(s, p);
    let (c, f) = contact_item()(s, p)->0;
    let q = (str_at(s, p)->0).1;
    lemma_uuid_from(s, q);
    let devices = lemma_counted_only(
        device_item(0),
        device_enc(),
        device_read(),
        device_fits(0),
        s,
        q + 16,
    );
    let w = WrittenContact { alias: c.alias, id: c.id, devices };
    assert(s.subrange(p, f) =~= s.subrange(p, q) + s.subrange(q, q + 16) + s.subrange(q + 16, f));
    w
}

proof fn lemma_contacts()
    ensures
        reads(contact_item(), contact_enc(), contact_read(), contact_fits()),
        reads_only(contact_item(), contact_enc(), contact_read(), contact_fits()),
{
    reveal(reads);
    reveal(reads_only);
    assert forall|w: WrittenContact, pre: Seq<u8>, post: Seq<u8>|
        contact_fits()(w) implies #[trigger] contact_item()(
        pre + contact_enc()(w) + post,
        pre.len() as int,
    ) == Some(
        (contact_read()(w), (pre.len() + contact_enc()(w).len()) as int),
    ) by {
        lemma_contact_read(w, pre, post);
    }
    assert forall|s: Seq<u8>, p: int|
        p >= 0 && (#[trigger] contact_item()(s, p)) is Some implies exists|w: WrittenContact|
     #[trigger]
        was_written(
            contact_enc(),
            contact_read(),
            contact_fits(),
            s,
            p,
            contact_item()(s, p)->0,
            w,
        ) by {
        let w = lemma_contact_only(s, p);
    }
}

// ── The laws ─────────────────────────────────────────────────────────────────

/// A reply is read as what the daemon wrote into it: who we are, then every device
/// and contact with their apps, each where it was listed.
pub proof fn replies_are_read_as_written(h: WrittenHeader, l: WrittenListing, tail: Seq<u8>)
    requires
        header_fits(h),
        listing_fits(l),
    ensures
        header_at(header_bytes(h) + tail) == Some((header_read(h), header_bytes(h).len() as int)),
        topology_at(header_bytes(h) + listing_bytes(l) + tail, header_bytes(h).len() as int)
            == Some(listing_read(l)),
{
    lemma_header(h, tail);
    lemma_listing(header_bytes(h), l, tail);
}

#[verifier::rlimit(30)]
proof fn lemma_listing(pre: Seq<u8>, l: WrittenListing, tail: Seq<u8>)
    requires
        listing_fits(l),
    ensures
        topology_at(pre + listing_bytes(l) + tail, pre.len() as int) == Some(listing_read(l)),
{
    let a = str_bytes(l.owner_alias);
    let ds = counted_bytes(device_enc(), l.devices);
    let cs = counted_bytes(contact_enc(), l.contacts);
    lemma_devices(7);
    lemma_contacts();
    lemma_four(pre, a, l.owner@, ds, cs, tail);
    lemma_str_read(pre, l.owner_alias, l.owner@ + ds + cs + tail);
    lemma_uuid_back(pre + a, l.owner, ds + cs + tail);
    lemma_counted_read(
        device_item(7),
        device_enc(),
        device_read(),
        device_fits(7),
        l.devices,
        pre + a + l.owner@,
        cs + tail,
    );
    lemma_counted_read(
        contact_item(),
        contact_enc(),
        contact_read(),
        contact_fits(),
        l.contacts,
        pre + a + l.owner@ + ds,
        tail,
    );
}

#[verifier::rlimit(30)]
proof fn lemma_header(h: WrittenHeader, tail: Seq<u8>)
    requires
        header_fits(h),
    ensures
        header_at(header_bytes(h) + tail) == Some((header_read(h), header_bytes(h).len() as int)),
{
    let whole = header_bytes(h) + tail;
    let one = seq![h.status];
    let a = str_bytes(h.alias);
    let mid = h.address + seq![h.approved] + h.token@;
    lemma_uuid_back(one, h.app_id, a + mid + h.local_device@ + tail);
    assert(one + h.app_id@ + (a + mid + h.local_device@ + tail) =~= whole);
    lemma_str_read(one + h.app_id@, h.alias, mid + h.local_device@ + tail);
    assert(one + h.app_id@ + a + (mid + h.local_device@ + tail) =~= whole);
    lemma_uuid_back(one + h.app_id@ + a + mid, h.local_device, tail);
    assert(one + h.app_id@ + a + mid + h.local_device@ + tail =~= whole);
    assert(whole[(one + h.app_id@ + a).len() as int + 6] == h.approved);
}

/// Whether a buffer starts with a header that is read so.
pub open spec fn starts_with_header(s: Seq<u8>, got: (HeaderModel, int), h: WrittenHeader) -> bool {
    &&& header_fits(h)
    &&& got.0 == header_read(h)
    &&& got.1 == header_bytes(h).len()
    &&& header_bytes(h).is_prefix_of(s)
}

/// Whether a buffer holds a listing at `p` that is read so.
pub open spec fn holds_listing(s: Seq<u8>, p: int, t: TopologyModel, l: WrittenListing) -> bool {
    &&& listing_fits(l)
    &&& t == listing_read(l)
    &&& p + listing_bytes(l).len() <= s.len()
    &&& s.subrange(p, p + listing_bytes(l).len()) == listing_bytes(l)
}

#[verifier::rlimit(30)]
proof fn lemma_header_only(s: Seq<u8>)
    ensures
        header_at(s) matches Some(got) ==> exists|h: WrittenHeader| #[trigger]
            starts_with_header(s, got, h),
{
    if let Some((m, e)) = header_at(s) {
        lemma_uuid_from(s, 1);
        lemma_str_from(s, 17);
        let q = (str_at(s, 17)->0).1;
        lemma_uuid_from(s, q + 23);
        lemma_uuid_from(s, q + 7);
        let h = WrittenHeader {
            status: s[0],
            app_id: m.app_id,
            alias: m.alias,
            address: s.subrange(q, q + 6),
            approved: s[q + 6],
            token: (uuid_at(s, q + 7)->0).0,
            local_device: m.local_device,
        };
        assert(s.subrange(0, e) =~= seq![s[0]] + s.subrange(1, 17) + s.subrange(17, q)
            + s.subrange(q, q + 6) + seq![s[q + 6]] + s.subrange(q + 7, q + 23) + s.subrange(
            q + 23,
            e,
        ));
        assert(header_bytes(h) == s.subrange(0, e));
        assert(starts_with_header(s, (m, e), h));
    }
}

#[verifier::rlimit(30)]
proof fn lemma_listing_only(s: Seq<u8>, p: int)
    requires
        p >= 0,
    ensures
        topology_at(s, p) matches Some(t) ==> exists|l: WrittenListing| #[trigger]
            holds_listing(s, p, t, l),
{
    if let Some(t) = topology_at(s, p) {
        lemma_devices(7);
        lemma_contacts();
        lemma_str_from(s, p);
        let q = (str_at(s, p)->0).1;
        lemma_uuid_from(s, q);
        let devices = lemma_counted_only(
            device_item(7),
            device_enc(),
            device_read(),
            device_fits(7),
            s,
            q + 16,
        );
        let f = (counted_at(device_item(7), s, q + 16)->0).1;
        let contacts = lemma_counted_only(
            contact_item(),
            contact_enc(),
            contact_read(),
            contact_fits(),
            s,
            f,
        );
        let e = (counted_at(contact_item(), s, f)->0).1;
        let l = WrittenListing { owner_alias: t.owner_alias, owner: t.owner, devices, contacts };
        assert(s.subrange(p, e) =~= s.subrange(p, q) + s.subrange(q, q + 16) + s.subrange(
            q + 16,
            f,
        ) + s.subrange(f, e));
        assert(listing_bytes(l) == s.subrange(p, e));
        assert(holds_listing(s, p, t, l));
    }
}

/// Nothing is read from a reply but what the daemon wrote in full: a reply that is
/// read starts with a header, and a listing that is read stands where the header
/// ends.
pub proof fn only_full_replies_are_read(s: Seq<u8>, p: int)
    requires
        p >= 0,
    ensures
        header_at(s) matches Some(got) ==> exists|h: WrittenHeader| #[trigger]
            starts_with_header(s, got, h),
        topology_at(s, p) matches Some(t) ==> exists|l: WrittenListing| #[trigger]
            holds_listing(s, p, t, l),
{
    lemma_header_only(s);
    lemma_listing_only(s, p);
}

/// A registration is granted exactly by a reply that starts with success and the
/// token.
pub proof fn tokens_are_read_as_written(reply: Seq<u8>, token: Uuid)
    ensures
        registered_token(reply) == Some(token) <==> (seq![0u8] + token@).is_prefix_of(reply),
{
    lemma_uuid_of_view(token);
    if registered_token(reply) == Some(token) {
        lemma_view_of_uuid(reply.subrange(1, 17));
        assert(seq![0u8] + token@ =~= reply.subrange(0, 17));
    }
    if (seq![0u8] + token@).is_prefix_of(reply) {
        assert(reply.subrange(0, 17)[0] == 0);
        assert(reply.subrange(1, 17) =~= (seq![0u8] + token@).subrange(1, 17));
        assert(reply.subrange(1, 17) =~= token@);
    }
}

} // verus!
