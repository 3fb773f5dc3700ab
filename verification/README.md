# pnet_chat

A chat node for a pnet overlay. Each user's top-ranked SG device acts as that
user's User Agent; the User Agent of a room's creator hosts the room, orders its
messages and brings members up to date.

- `src/` is the verified core: the wire format (`bytes`, `codec`, `round_trip`),
  the daemon's packets and snapshot (`packet`, `snapshot`), the node
  (`state`, `rooms`, `messages`, `frame`), what the local user asks for (`api`),
  and what holds of the whole (`laws`).
- `app/` runs it: sockets, HTTP, the token file and the page.
- `tests/` exercises the core on concrete values.

Every handler is specified by a step on models: the node before, the node after,
the line that goes to the log, and the frames that go out.
