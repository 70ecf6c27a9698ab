//! The persistence adapter, modelled as verified in-memory state.
//!
//! The store keeps the five mirrored collections with the same keys,
//! conflict rules and referential-integrity constraints the relational
//! schema enforces: every write is an upsert keyed by a remote-assigned
//! primary key that ignores a conflicting row (only a user's emoji is
//! overwritten), and a batch whose foreign keys do not all exist yet is
//! rejected as a whole, so guilds must be written before their channels and
//! channels before their messages.

use vstd::prelude::*;

use crate::entities::{Channel, Guild, Message, User, UserEmoji};
use crate::error::DatabaseError;

verus! {

/// The mathematical contents of the store: each collection as the sequence
/// of its rows in insertion order.
pub struct DbView {
    pub guilds: Seq<Guild>,
    pub users: Seq<User>,
    pub channels: Seq<Channel>,
    pub messages: Seq<Message>,
    pub emojis: Seq<UserEmoji>,
}

/// Some row of `s` has this id.
pub open spec fn guilds_have(s: Seq<Guild>, id: u64) -> bool {
    exists|i: int| 0 <= i < s.len() && s[i].id == id
}

/// Some row of `s` has this id.
pub open spec fn users_have(s: Seq<User>, id: u64) -> bool {
    exists|i: int| 0 <= i < s.len() && s[i].id == id
}

/// Some row of `s` has this id.
pub open spec fn channels_have(s: Seq<Channel>, id: u64) -> bool {
    exists|i: int| 0 <= i < s.len() && s[i].id == id
}

/// Some row of `s` has this id.
pub open spec fn messages_have(s: Seq<Message>, id: u64) -> bool {
    exists|i: int| 0 <= i < s.len() && s[i].id == id
}

/// Some row of `s` is keyed by this (user, guild) pair.
pub open spec fn emojis_have(s: Seq<UserEmoji>, user_id: u64, guild_id: u64) -> bool {
    exists|i: int| 0 <= i < s.len() && s[i].user_id == user_id && s[i].guild_id == guild_id
}

/// The effect of upserting a batch of messages with conflicts ignored: the
/// rows are appended in order, each only while its id is not yet present;
/// a row whose id conflicts with a stored row, or with an earlier row of
/// the batch, is discarded.
pub open spec fn upsert_messages(stored: Seq<Message>, batch: Seq<Message>) -> Seq<Message>
    decreases batch.len(),
{
    if batch.len() == 0 {
        stored
    } else {
        let rest = upsert_messages(stored, batch.drop_last());
        if messages_have(rest, batch.last().id) {
            rest
        } else {
            rest.push(batch.last())
        }
    }
}

/// The same conflict-ignoring upsert for a batch of users.
pub open spec fn upsert_users(stored: Seq<User>, batch: Seq<User>) -> Seq<User>
    decreases batch.len(),
{
    if batch.len() == 0 {
        stored
    } else {
        let rest = upsert_users(stored, batch.drop_last());
        if users_have(rest, batch.last().id) {
            rest
        } else {
            rest.push(batch.last())
        }
    }
}

/// The same conflict-ignoring upsert for a batch of channels.
pub open spec fn upsert_channels(stored: Seq<Channel>, batch: Seq<Channel>) -> Seq<Channel>
    decreases batch.len(),
{
    if batch.len() == 0 {
        stored
    } else {
        let rest = upsert_channels(stored, batch.drop_last());
        if channels_have(rest, batch.last().id) {
            rest
        } else {
            rest.push(batch.last())
        }
    }
}

impl DbView {
    /// A guild with this id is stored.
    pub open spec fn has_guild(self, id: u64) -> bool {
        guilds_have(self.guilds, id)
    }

    /// A user with this id is stored.
    pub open spec fn has_user(self, id: u64) -> bool {
        users_have(self.users, id)
    }

    /// A channel with this id is stored.
    pub open spec fn has_channel(self, id: u64) -> bool {
        channels_have(self.channels, id)
    }

    /// A message with this id is stored.
    pub open spec fn has_message(self, id: u64) -> bool {
        messages_have(self.messages, id)
    }

    /// An emoji row for this (user, guild) pair is stored.
    pub open spec fn has_emoji(self, user_id: u64, guild_id: u64) -> bool {
        emojis_have(self.emojis, user_id, guild_id)
    }

    /// The foreign keys a guild row needs.
    pub open spec fn guild_ok(self, g: Guild) -> bool {
        users_have(self.users, g.owner_id)
    }

    /// The foreign keys a channel row needs.
    pub open spec fn channel_ok(self, c: Channel) -> bool {
        guilds_have(self.guilds, c.guild_id)
    }

    /// The foreign keys a message row needs; a message without an author
    /// needs none on the author side.
    pub open spec fn message_ok(self, m: Message) -> bool {
        &&& channels_have(self.channels, m.channel_id)
        &&& (m.author_id matches Some(a) ==> users_have(self.users, a))
    }

    /// The foreign keys an emoji row needs.
    pub open spec fn emoji_ok(self, e: UserEmoji) -> bool {
        users_have(self.users, e.user_id) && guilds_have(self.guilds, e.guild_id)
    }

    /// Some stored message belongs to this channel.
    pub open spec fn channel_has_messages(self, cid: u64) -> bool {
        exists|i: int| 0 <= i < self.messages.len() && self.messages[i].channel_id == cid
    }

    /// `m` is a stored message of this channel and no stored message of the
    /// channel has a smaller id.
    pub open spec fn is_oldest_message(self, cid: u64, m: Message) -> bool {
        &&& exists|i: int| 0 <= i < self.messages.len() && self.messages[i] == m
        &&& m.channel_id == cid
        &&& forall|i: int|
            0 <= i < self.messages.len() && #[trigger] self.messages[i].channel_id == cid
                ==> m.id <= self.messages[i].id
    }

    /// `m` is a stored message of this channel and no stored message of the
    /// channel has a larger id.
    pub open spec fn is_newest_message(self, cid: u64, m: Message) -> bool {
        &&& exists|i: int| 0 <= i < self.messages.len() && self.messages[i] == m
        &&& m.channel_id == cid
        &&& forall|i: int|
            0 <= i < self.messages.len() && #[trigger] self.messages[i].channel_id == cid
                ==> self.messages[i].id <= m.id
    }

    /// Well-formedness: primary keys are unique and every foreign key
    /// resolves.  Writes preserve this because a conflicting row is ignored
    /// and a batch with a dangling foreign key is rejected.
    pub open spec fn wf(self) -> bool {
        &&& forall|i: int, j: int|
            0 <= i < j < self.guilds.len() ==> (#[trigger] self.guilds[i]).id
                != (#[trigger] self.guilds[j]).id
        &&& forall|i: int, j: int|
            0 <= i < j < self.users.len() ==> (#[trigger] self.users[i]).id
                != (#[trigger] self.users[j]).id
        &&& forall|i: int, j: int|
            0 <= i < j < self.channels.len() ==> (#[trigger] self.channels[i]).id
                != (#[trigger] self.channels[j]).id
        &&& forall|i: int, j: int|
            0 <= i < j < self.messages.len() ==> (#[trigger] self.messages[i]).id
                != (#[trigger] self.messages[j]).id
        &&& forall|i: int, j: int|
            0 <= i < j < self.emojis.len() ==> !((#[trigger] self.emojis[i]).user_id
                == (#[trigger] self.emojis[j]).user_id && self.emojis[i].guild_id
                == self.emojis[j].guild_id)
        &&& forall|i: int| 0 <= i < self.guilds.len() ==> self.guild_ok(#[trigger] self.guilds[i])
        &&& forall|i: int|
            0 <= i < self.channels.len() ==> self.channel_ok(#[trigger] self.channels[i])
        &&& forall|i: int|
            0 <= i < self.messages.len() ==> self.message_ok(#[trigger] self.messages[i])
        &&& forall|i: int| 0 <= i < self.emojis.len() ==> self.emoji_ok(#[trigger] self.emojis[i])
    }
}

/// A row keeps being found after appending another row.
proof fn lemma_users_have_push(s: Seq<User>, u: User, id: u64)
    requires
        users_have(s, id),
    ensures
        users_have(s.push(u), id),
{
    let k = choose|i: int| 0 <= i < s.len() && s[i].id == id;
    assert(s.push(u)[k].id == id);
}

/// A row keeps being found after appending another row.
proof fn lemma_guilds_have_push(s: Seq<Guild>, g: Guild, id: u64)
    requires
        guilds_have(s, id),
    ensures
        guilds_have(s.push(g), id),
{
    let k = choose|i: int| 0 <= i < s.len() && s[i].id == id;
    assert(s.push(g)[k].id == id);
}

/// A row keeps being found after appending another row.
proof fn lemma_channels_have_push(s: Seq<Channel>, c: Channel, id: u64)
    requires
        channels_have(s, id),
    ensures
        channels_have(s.push(c), id),
{
    let k = choose|i: int| 0 <= i < s.len() && s[i].id == id;
    assert(s.push(c)[k].id == id);
}

/// Replacing a row by one with the same id does not change which ids are
/// found.
proof fn lemma_channels_have_update_same_id(s: Seq<Channel>, at: int, c: Channel, id: u64)
    requires
        0 <= at < s.len(),
        c.id == s[at].id,
        channels_have(s, id),
    ensures
        channels_have(s.update(at, c), id),
{
    let k = choose|i: int| 0 <= i < s.len() && s[i].id == id;
    if k == at {
        assert(s.update(at, c)[at].id == id);
    } else {
        assert(s.update(at, c)[k].id == id);
    }
}

/// Adding a user whose id is fresh keeps the store well-formed: user ids
/// stay unique, and every foreign key that resolved keeps resolving.
proof fn lemma_wf_push_user(v: DbView, u: User)
    requires
        v.wf(),
        !v.has_user(u.id),
    ensures
        (DbView { users: v.users.push(u), ..v }).wf(),
{
    let w = DbView { users: v.users.push(u), ..v };
    assert forall|i: int, j: int| 0 <= i < j < w.users.len() implies (#[trigger] w.users[i]).id
        != (#[trigger] w.users[j]).id by {
        if j == v.users.len() {
            if v.users[i].id == u.id {
                assert(users_have(v.users, u.id));
            }
        }
    };
    assert forall|i: int| 0 <= i < w.guilds.len() implies w.guild_ok(#[trigger] w.guilds[i]) by {
        assert(v.guild_ok(v.guilds[i]));
        lemma_users_have_push(v.users, u, v.guilds[i].owner_id);
    };
    assert forall|i: int| 0 <= i < w.messages.len() implies w.message_ok(
        #[trigger] w.messages[i],
    ) by {
        assert(v.message_ok(v.messages[i]));
        match v.messages[i].author_id {
            Some(a) => lemma_users_have_push(v.users, u, a),
            None => (),
        }
    };
    assert forall|i: int| 0 <= i < w.emojis.len() implies w.emoji_ok(#[trigger] w.emojis[i]) by {
        assert(v.emoji_ok(v.emojis[i]));
        lemma_users_have_push(v.users, u, v.emojis[i].user_id);
    };
}

/// Adding a guild whose id is fresh and whose owner is stored keeps the
/// store well-formed.
proof fn lemma_wf_push_guild(v: DbView, g: Guild)
    requires
        v.wf(),
        !v.has_guild(g.id),
        v.guild_ok(g),
    ensures
        (DbView { guilds: v.guilds.push(g), ..v }).wf(),
{
    let w = DbView { guilds: v.guilds.push(g), ..v };
    assert forall|i: int, j: int| 0 <= i < j < w.guilds.len() implies (#[trigger] w.guilds[i]).id
        != (#[trigger] w.guilds[j]).id by {
        if j == v.guilds.len() {
            if v.guilds[i].id == g.id {
                assert(guilds_have(v.guilds, g.id));
            }
        }
    };
    assert forall|i: int| 0 <= i < w.guilds.len() implies w.guild_ok(#[trigger] w.guilds[i]) by {
        if i < v.guilds.len() {
            assert(v.guild_ok(v.guilds[i]));
        } else {
            assert(w.guilds[i] == g);
        }
    };
    assert forall|i: int| 0 <= i < w.channels.len() implies w.channel_ok(
        #[trigger] w.channels[i],
    ) by {
        assert(v.channel_ok(v.channels[i]));
        lemma_guilds_have_push(v.guilds, g, v.channels[i].guild_id);
    };
    assert forall|i: int| 0 <= i < w.emojis.len() implies w.emoji_ok(#[trigger] w.emojis[i]) by {
        assert(v.emoji_ok(v.emojis[i]));
        lemma_guilds_have_push(v.guilds, g, v.emojis[i].guild_id);
    };
}

/// Row `i` of the batch would actually insert: its id conflicts neither
/// with a stored row nor with an earlier row of the batch.
pub open spec fn message_batch_row_new(v: DbView, batch: Seq<Message>, i: int) -> bool {
    &&& !messages_have(v.messages, batch[i].id)
    &&& forall|j: int| 0 <= j < i ==> (#[trigger] batch[j]).id != batch[i].id
}

/// Every batch row that would actually insert has resolving foreign keys;
/// a conflicting row is never checked because it is never inserted.
pub open spec fn message_batch_ok(v: DbView, batch: Seq<Message>) -> bool {
    forall|i: int|
        0 <= i < batch.len() && message_batch_row_new(v, batch, i) ==> v.message_ok(
            #[trigger] batch[i],
        )
}

/// What a remote channel row becomes on insert: the backfill flag always
/// starts false; only the one-time empty-page transition raises it, so a
/// snapshot refresh can never pre-mark a channel.
pub open spec fn fresh_channel_spec(c: Channel) -> Channel {
    Channel { backfill_done: false, ..c }
}

/// The whole batch, as inserted.
pub open spec fn fresh_channels(s: Seq<Channel>) -> Seq<Channel> {
    s.map(|i: int, c: Channel| fresh_channel_spec(c))
}

/// Row `i` of the batch would actually insert: its id conflicts neither
/// with a stored row nor with an earlier row of the batch.
pub open spec fn channel_batch_row_new(v: DbView, batch: Seq<Channel>, i: int) -> bool {
    &&& !channels_have(v.channels, batch[i].id)
    &&& forall|j: int| 0 <= j < i ==> (#[trigger] batch[j]).id != batch[i].id
}

/// Every batch row that would actually insert has a stored guild.
pub open spec fn channel_batch_ok(v: DbView, batch: Seq<Channel>) -> bool {
    forall|i: int|
        0 <= i < batch.len() && channel_batch_row_new(v, batch, i) ==> v.channel_ok(
            #[trigger] batch[i],
        )
}

/// Appending a row makes an id found exactly when it was found before or
/// the new row carries it.
proof fn lemma_messages_have_push_iff(s: Seq<Message>, m: Message, id: u64)
    ensures
        messages_have(s.push(m), id) <==> (messages_have(s, id) || m.id == id),
{
    if messages_have(s, id) {
        let k = choose|i: int| 0 <= i < s.len() && s[i].id == id;
        assert(s.push(m)[k].id == id);
    }
    if m.id == id {
        assert(s.push(m)[s.len() as int].id == id);
    }
    if messages_have(s.push(m), id) {
        let k = choose|i: int| 0 <= i < s.push(m).len() && s.push(m)[i].id == id;
        if k < s.len() {
            assert(s[k].id == id);
        }
    }
}

/// Appending a row makes an id found exactly when it was found before or
/// the new row carries it.
proof fn lemma_users_have_push_iff(s: Seq<User>, u: User, id: u64)
    ensures
        users_have(s.push(u), id) <==> (users_have(s, id) || u.id == id),
{
    if users_have(s, id) {
        let k = choose|i: int| 0 <= i < s.len() && s[i].id == id;
        assert(s.push(u)[k].id == id);
    }
    if u.id == id {
        assert(s.push(u)[s.len() as int].id == id);
    }
    if users_have(s.push(u), id) {
        let k = choose|i: int| 0 <= i < s.push(u).len() && s.push(u)[i].id == id;
        if k < s.len() {
            assert(s[k].id == id);
        }
    }
}

/// Appending a row makes an id found exactly when it was found before or
/// the new row carries it.
proof fn lemma_channels_have_push_iff(s: Seq<Channel>, c: Channel, id: u64)
    ensures
        channels_have(s.push(c), id) <==> (channels_have(s, id) || c.id == id),
{
    if channels_have(s, id) {
        let k = choose|i: int| 0 <= i < s.len() && s[i].id == id;
        assert(s.push(c)[k].id == id);
    }
    if c.id == id {
        assert(s.push(c)[s.len() as int].id == id);
    }
    if channels_have(s.push(c), id) {
        let k = choose|i: int| 0 <= i < s.push(c).len() && s.push(c)[i].id == id;
        if k < s.len() {
            assert(s[k].id == id);
        }
    }
}

/// An id is found after an upsert exactly when a stored row or a batch row
/// carries it.
pub proof fn lemma_upsert_messages_have(stored: Seq<Message>, batch: Seq<Message>, id: u64)
    ensures
        messages_have(upsert_messages(stored, batch), id) <==> (messages_have(stored, id)
            || messages_have(batch, id)),
    decreases batch.len(),
{
    if batch.len() == 0 {
        assert(!messages_have(batch, id));
    } else {
        let rest = upsert_messages(stored, batch.drop_last());
        let m = batch.last();
        lemma_upsert_messages_have(stored, batch.drop_last(), id);
        assert(batch =~= batch.drop_last().push(m));
        lemma_messages_have_push_iff(batch.drop_last(), m, id);
        if !messages_have(rest, m.id) {
            lemma_messages_have_push_iff(rest, m, id);
        }
    }
}

/// An id is found after an upsert exactly when a stored row or a batch row
/// carries it.
pub proof fn lemma_upsert_users_have(stored: Seq<User>, batch: Seq<User>, id: u64)
    ensures
        users_have(upsert_users(stored, batch), id) <==> (users_have(stored, id) || users_have(
            batch,
            id,
        )),
    decreases batch.len(),
{
    if batch.len() == 0 {
        assert(!users_have(batch, id));
    } else {
        let rest = upsert_users(stored, batch.drop_last());
        let u = batch.last();
        lemma_upsert_users_have(stored, batch.drop_last(), id);
        assert(batch =~= batch.drop_last().push(u));
        lemma_users_have_push_iff(batch.drop_last(), u, id);
        if !users_have(rest, u.id) {
            lemma_users_have_push_iff(rest, u, id);
        }
    }
}

/// An id is found after an upsert exactly when a stored row or a batch row
/// carries it.
pub proof fn lemma_upsert_channels_have(stored: Seq<Channel>, batch: Seq<Channel>, id: u64)
    ensures
        channels_have(upsert_channels(stored, batch), id) <==> (channels_have(stored, id)
            || channels_have(batch, id)),
    decreases batch.len(),
{
    if batch.len() == 0 {
        assert(!channels_have(batch, id));
    } else {
        let rest = upsert_channels(stored, batch.drop_last());
        let c = batch.last();
        lemma_upsert_channels_have(stored, batch.drop_last(), id);
        assert(batch =~= batch.drop_last().push(c));
        lemma_channels_have_push_iff(batch.drop_last(), c, id);
        if !channels_have(rest, c.id) {
            lemma_channels_have_push_iff(rest, c, id);
        }
    }
}

/// An upsert leaves the stored rows in place and only appends rows taken
/// from the batch.
pub proof fn lemma_upsert_messages_structure(stored: Seq<Message>, batch: Seq<Message>)
    ensures
        upsert_messages(stored, batch).len() >= stored.len(),
        forall|i: int|
            0 <= i < stored.len() ==> #[trigger] upsert_messages(stored, batch)[i] == stored[i],
        forall|i: int|
            stored.len() <= i < upsert_messages(stored, batch).len() ==> exists|j: int|
                0 <= j < batch.len() && #[trigger] upsert_messages(stored, batch)[i] == batch[j],
    decreases batch.len(),
{
    if batch.len() > 0 {
        lemma_upsert_messages_structure(stored, batch.drop_last());
        let rest = upsert_messages(stored, batch.drop_last());
        let out = upsert_messages(stored, batch);
        if !messages_have(rest, batch.last().id) {
            assert(out == rest.push(batch.last()));
            assert forall|i: int| stored.len() <= i < out.len() implies exists|j: int|
                0 <= j < batch.len() && #[trigger] out[i] == batch[j] by {
                if i < rest.len() {
                    assert(out[i] == rest[i]);
                    let j0 = choose|j: int|
                        0 <= j < batch.drop_last().len() && #[trigger] rest[i]
                            == batch.drop_last()[j];
                    assert(batch.drop_last()[j0] == batch[j0]);
                    assert(out[i] == batch[j0]);
                } else {
                    assert(out[i] == batch[batch.len() - 1]);
                }
            };
        } else {
            assert forall|i: int| stored.len() <= i < out.len() implies exists|j: int|
                0 <= j < batch.len() && #[trigger] out[i] == batch[j] by {
                let j0 = choose|j: int|
                    0 <= j < batch.drop_last().len() && #[trigger] rest[i] == batch.drop_last()[j];
                assert(batch.drop_last()[j0] == batch[j0]);
                assert(out[i] == batch[j0]);
            };
        }
    }
}

/// An upsert whose batch only repeats stored ids changes nothing.
pub proof fn lemma_upsert_messages_noop(stored: Seq<Message>, batch: Seq<Message>)
    requires
        forall|j: int| 0 <= j < batch.len() ==> messages_have(stored, (#[trigger] batch[j]).id),
    ensures
        upsert_messages(stored, batch) == stored,
    decreases batch.len(),
{
    if batch.len() > 0 {
        assert forall|j: int| 0 <= j < batch.drop_last().len() implies messages_have(
            stored,
            (#[trigger] batch.drop_last()[j]).id,
        ) by {
            assert(batch.drop_last()[j] == batch[j]);
        };
        lemma_upsert_messages_noop(stored, batch.drop_last());
        assert(messages_have(stored, batch[batch.len() - 1].id));
        assert(messages_have(stored, batch.last().id));
    }
}

/// An upsert leaves the stored rows in place and only appends rows taken
/// from the batch.
pub proof fn lemma_upsert_channels_structure(stored: Seq<Channel>, batch: Seq<Channel>)
    ensures
        upsert_channels(stored, batch).len() >= stored.len(),
        forall|i: int|
            0 <= i < stored.len() ==> #[trigger] upsert_channels(stored, batch)[i] == stored[i],
        forall|i: int|
            stored.len() <= i < upsert_channels(stored, batch).len() ==> exists|j: int|
                0 <= j < batch.len() && #[trigger] upsert_channels(stored, batch)[i] == batch[j],
    decreases batch.len(),
{
    if batch.len() > 0 {
        lemma_upsert_channels_structure(stored, batch.drop_last());
        let rest = upsert_channels(stored, batch.drop_last());
        let out = upsert_channels(stored, batch);
        if !channels_have(rest, batch.last().id) {
            assert(out == rest.push(batch.last()));
            assert forall|i: int| stored.len() <= i < out.len() implies exists|j: int|
                0 <= j < batch.len() && #[trigger] out[i] == batch[j] by {
                if i < rest.len() {
                    assert(out[i] == rest[i]);
                    let j0 = choose|j: int|
                        0 <= j < batch.drop_last().len() && #[trigger] rest[i]
                            == batch.drop_last()[j];
                    assert(batch.drop_last()[j0] == batch[j0]);
                    assert(out[i] == batch[j0]);
                } else {
                    assert(out[i] == batch[batch.len() - 1]);
                }
            };
        } else {
            assert forall|i: int| stored.len() <= i < out.len() implies exists|j: int|
                0 <= j < batch.len() && #[trigger] out[i] == batch[j] by {
                let j0 = choose|j: int|
                    0 <= j < batch.drop_last().len() && #[trigger] rest[i] == batch.drop_last()[j];
                assert(batch.drop_last()[j0] == batch[j0]);
                assert(out[i] == batch[j0]);
            };
        }
    }
}

/// Adding a message whose id is fresh and whose foreign keys resolve keeps
/// the store well-formed.
proof fn lemma_wf_push_message(v: DbView, m: Message)
    requires
        v.wf(),
        !v.has_message(m.id),
        v.message_ok(m),
    ensures
        (DbView { messages: v.messages.push(m), ..v }).wf(),
{
    let w = DbView { messages: v.messages.push(m), ..v };
    assert forall|i: int, j: int| 0 <= i < j < w.messages.len() implies (#[trigger] w.messages[i]).id
        != (#[trigger] w.messages[j]).id by {
        if j == v.messages.len() {
            if v.messages[i].id == m.id {
                assert(messages_have(v.messages, m.id));
            }
        }
    };
    assert forall|i: int| 0 <= i < w.messages.len() implies w.message_ok(
        #[trigger] w.messages[i],
    ) by {
        if i < v.messages.len() {
            assert(v.message_ok(v.messages[i]));
        } else {
            assert(w.messages[i] == m);
        }
    };
}

/// Adding a channel whose id is fresh and whose guild is stored keeps the
/// store well-formed.
proof fn lemma_wf_push_channel(v: DbView, c: Channel)
    requires
        v.wf(),
        !v.has_channel(c.id),
        v.channel_ok(c),
    ensures
        (DbView { channels: v.channels.push(c), ..v }).wf(),
{
    let w = DbView { channels: v.channels.push(c), ..v };
    assert forall|i: int, j: int| 0 <= i < j < w.channels.len() implies (#[trigger] w.channels[i]).id
        != (#[trigger] w.channels[j]).id by {
        if j == v.channels.len() {
            if v.channels[i].id == c.id {
                assert(channels_have(v.channels, c.id));
            }
        }
    };
    assert forall|i: int| 0 <= i < w.channels.len() implies w.channel_ok(
        #[trigger] w.channels[i],
    ) by {
        if i < v.channels.len() {
            assert(v.channel_ok(v.channels[i]));
        } else {
            assert(w.channels[i] == c);
        }
    };
    assert forall|i: int| 0 <= i < w.messages.len() implies w.message_ok(
        #[trigger] w.messages[i],
    ) by {
        assert(v.message_ok(v.messages[i]));
        lemma_channels_have_push(v.channels, c, v.messages[i].channel_id);
    };
}

/// The emoji rows after setting one user's emoji in one guild: an existing
/// row keeps its place and only its emoji value changes; otherwise a new
/// row is appended.
pub open spec fn emojis_upserted(
    old: Seq<UserEmoji>,
    new: Seq<UserEmoji>,
    user_id: u64,
    guild_id: u64,
    e: Seq<char>,
) -> bool {
    if emojis_have(old, user_id, guild_id) {
        &&& new.len() == old.len()
        &&& exists|i: int|
            0 <= i < old.len() && old[i].user_id == user_id && old[i].guild_id == guild_id && (
            #[trigger] new[i]).user_id == user_id && new[i].guild_id == guild_id && new[i].emoji@
                == e && (forall|j: int| 0 <= j < old.len() && j != i ==> new[j] == old[j])
    } else {
        &&& new.len() == old.len() + 1
        &&& new.drop_last() == old
        &&& new.last().user_id == user_id
        &&& new.last().guild_id == guild_id
        &&& new.last().emoji@ == e
    }
}

/// Marking one channel backfilled keeps the store well-formed: the row
/// keeps its id and guild, so every key and foreign key still resolves.
proof fn lemma_wf_set_backfilled(v: DbView, at: int, c: Channel)
    requires
        v.wf(),
        0 <= at < v.channels.len(),
        c.id == v.channels[at].id,
        c.guild_id == v.channels[at].guild_id,
    ensures
        (DbView { channels: v.channels.update(at, c), ..v }).wf(),
{
    let w = DbView { channels: v.channels.update(at, c), ..v };
    assert forall|i: int, j: int| 0 <= i < j < w.channels.len() implies (#[trigger] w.channels[i]).id
        != (#[trigger] w.channels[j]).id by {
        assert(v.channels[i].id != v.channels[j].id);
    };
    assert forall|i: int| 0 <= i < w.channels.len() implies w.channel_ok(
        #[trigger] w.channels[i],
    ) by {
        assert(v.channel_ok(v.channels[i]));
    };
    assert forall|i: int| 0 <= i < w.messages.len() implies w.message_ok(
        #[trigger] w.messages[i],
    ) by {
        assert(v.message_ok(v.messages[i]));
        lemma_channels_have_update_same_id(v.channels, at, c, v.messages[i].channel_id);
    };
}

/// Adding an emoji row with a fresh (user, guild) key and resolving
/// foreign keys keeps the store well-formed.
proof fn lemma_wf_push_emoji(v: DbView, e: UserEmoji)
    requires
        v.wf(),
        !v.has_emoji(e.user_id, e.guild_id),
        v.emoji_ok(e),
    ensures
        (DbView { emojis: v.emojis.push(e), ..v }).wf(),
{
    let w = DbView { emojis: v.emojis.push(e), ..v };
    assert forall|i: int, j: int| 0 <= i < j < w.emojis.len() implies !((
    #[trigger] w.emojis[i]).user_id == (#[trigger] w.emojis[j]).user_id && w.emojis[i].guild_id
        == w.emojis[j].guild_id) by {
        if j == v.emojis.len() {
            if v.emojis[i].user_id == e.user_id && v.emojis[i].guild_id == e.guild_id {
                assert(emojis_have(v.emojis, e.user_id, e.guild_id));
            }
        }
    };
    assert forall|i: int| 0 <= i < w.emojis.len() implies w.emoji_ok(#[trigger] w.emojis[i]) by {
        if i < v.emojis.len() {
            assert(v.emoji_ok(v.emojis[i]));
        } else {
            assert(w.emojis[i] == e);
        }
    };
}

/// Overwriting the emoji value of an existing row keeps the store
/// well-formed: the key pair is unchanged.
proof fn lemma_wf_update_emoji(v: DbView, at: int, e: UserEmoji)
    requires
        v.wf(),
        0 <= at < v.emojis.len(),
        e.user_id == v.emojis[at].user_id,
        e.guild_id == v.emojis[at].guild_id,
    ensures
        (DbView { emojis: v.emojis.update(at, e), ..v }).wf(),
{
    let w = DbView { emojis: v.emojis.update(at, e), ..v };
    assert forall|i: int, j: int| 0 <= i < j < w.emojis.len() implies !((
    #[trigger] w.emojis[i]).user_id == (#[trigger] w.emojis[j]).user_id && w.emojis[i].guild_id
        == w.emojis[j].guild_id) by {
        assert(!(v.emojis[i].user_id == v.emojis[j].user_id && v.emojis[i].guild_id
            == v.emojis[j].guild_id));
    };
    assert forall|i: int| 0 <= i < w.emojis.len() implies w.emoji_ok(#[trigger] w.emojis[i]) by {
        assert(v.emoji_ok(v.emojis[i]));
    };
}

/// The store itself.  Its contents are reached only through the upsert and
/// query operations, which keep `self@.wf()`.
pub struct Database {
    guilds: Vec<Guild>,
    users: Vec<User>,
    channels: Vec<Channel>,
    messages: Vec<Message>,
    emojis: Vec<UserEmoji>,
}

impl View for Database {
    type V = DbView;

    closed spec fn view(&self) -> DbView {
        DbView {
            guilds: self.guilds@,
            users: self.users@,
            channels: self.channels@,
            messages: self.messages@,
            emojis: self.emojis@,
        }
    }
}

impl Database {
    /// An empty store.
    pub fn new() -> (db: Database)
        ensures
            db@.wf(),
            db@.guilds == Seq::<Guild>::empty(),
            db@.users == Seq::<User>::empty(),
            db@.channels == Seq::<Channel>::empty(),
            db@.messages == Seq::<Message>::empty(),
            db@.emojis == Seq::<UserEmoji>::empty(),
    {
        Database {
            guilds: Vec::new(),
            users: Vec::new(),
            channels: Vec::new(),
            messages: Vec::new(),
            emojis: Vec::new(),
        }
    }

    /// The number of stored channels.
    pub(crate) fn channels_len(&self) -> (r: usize)
        ensures
            r == self@.channels.len(),
    {
        self.channels.len()
    }

    /// The stored channel at this position.
    pub(crate) fn channel_at(&self, k: usize) -> (r: &Channel)
        requires
            k < self@.channels.len(),
        ensures
            *r == self@.channels[k as int],
    {
        &self.channels[k]
    }

    /// The number of stored messages.
    pub(crate) fn messages_len(&self) -> (r: usize)
        ensures
            r == self@.messages.len(),
    {
        self.messages.len()
    }

    /// The stored message at this position.
    pub(crate) fn message_at(&self, k: usize) -> (r: &Message)
        requires
            k < self@.messages.len(),
        ensures
            *r == self@.messages[k as int],
    {
        &self.messages[k]
    }

    /// The number of stored users.
    pub(crate) fn users_len(&self) -> (r: usize)
        ensures
            r == self@.users.len(),
    {
        self.users.len()
    }

    /// The stored user at this position.
    pub(crate) fn user_at(&self, k: usize) -> (r: &User)
        requires
            k < self@.users.len(),
        ensures
            *r == self@.users[k as int],
    {
        &self.users[k]
    }

    /// Whether a user with this id is stored.
    pub fn contains_user(&self, id: u64) -> (r: bool)
        ensures
            r == self@.has_user(id),
    {
        let mut k: usize = 0;
        while k < self.users.len()
            invariant
                0 <= k <= self.users.len(),
                forall|i: int| 0 <= i < k ==> self.users@[i].id != id,
            decreases self.users.len() - k,
        {
            if self.users[k].id == id {
                proof {
                    assert(self@.users[k as int].id == id);
                }
                return true;
            }
            k += 1;
        }
        false
    }

    /// Whether a guild with this id is stored.
    pub fn contains_guild(&self, id: u64) -> (r: bool)
        ensures
            r == self@.has_guild(id),
    {
        let mut k: usize = 0;
        while k < self.guilds.len()
            invariant
                0 <= k <= self.guilds.len(),
                forall|i: int| 0 <= i < k ==> self.guilds@[i].id != id,
            decreases self.guilds.len() - k,
        {
            if self.guilds[k].id == id {
                proof {
                    assert(self@.guilds[k as int].id == id);
                }
                return true;
            }
            k += 1;
        }
        false
    }

    /// Whether a channel with this id is stored.
    pub fn contains_channel(&self, id: u64) -> (r: bool)
        ensures
            r == self@.has_channel(id),
    {
        let mut k: usize = 0;
        while k < self.channels.len()
            invariant
                0 <= k <= self.channels.len(),
                forall|i: int| 0 <= i < k ==> self.channels@[i].id != id,
            decreases self.channels.len() - k,
        {
            if self.channels[k].id == id {
                proof {
                    assert(self@.channels[k as int].id == id);
                }
                return true;
            }
            k += 1;
        }
        false
    }

    /// Whether a message with this id is stored.
    pub fn contains_message(&self, id: u64) -> (r: bool)
        ensures
            r == self@.has_message(id),
    {
        let mut k: usize = 0;
        while k < self.messages.len()
            invariant
                0 <= k <= self.messages.len(),
                forall|i: int| 0 <= i < k ==> self.messages@[i].id != id,
            decreases self.messages.len() - k,
        {
            if self.messages[k].id == id {
                proof {
                    assert(self@.messages[k as int].id == id);
                }
                return true;
            }
            k += 1;
        }
        false
    }

    /// All stored guilds, in insertion order.
    pub fn get_guilds(&self) -> (r: Vec<Guild>)
        ensures
            r@ == self@.guilds,
    {
        let mut out: Vec<Guild> = Vec::new();
        let mut k: usize = 0;
        while k < self.guilds.len()
            invariant
                0 <= k <= self.guilds.len(),
                out@ == self.guilds@.take(k as int),
            decreases self.guilds.len() - k,
        {
            out.push(self.guilds[k].clone());
            proof {
                assert(self.guilds@.take(k + 1 as int) =~= self.guilds@.take(k as int).push(
                    self.guilds@[k as int],
                ));
            }
            k += 1;
        }
        proof {
            assert(self.guilds@.take(self.guilds@.len() as int) =~= self.guilds@);
        }
        out
    }

    /// Upsert one user: a no-op when the id is already stored.
    pub fn save_user(&mut self, u: &User) -> (r: Result<(), DatabaseError>)
        requires
            old(self)@.wf(),
        ensures
            final(self)@.wf(),
            r == Ok::<(), DatabaseError>(()),
            old(self)@.has_user(u.id) ==> final(self)@ == old(self)@,
            !old(self)@.has_user(u.id) ==> final(self)@ == (DbView {
                users: old(self)@.users.push(*u),
                ..old(self)@
            }),
    {
        if !self.contains_user(u.id) {
            proof {
                lemma_wf_push_user(self@, *u);
            }
            self.users.push(u.clone());
        }
        Ok(())
    }

    /// Upsert one guild: a no-op when the id is already stored; a new row
    /// is rejected while its owner is not stored.
    pub fn save_guild(&mut self, g: &Guild) -> (r: Result<(), DatabaseError>)
        requires
            old(self)@.wf(),
        ensures
            final(self)@.wf(),
            old(self)@.has_guild(g.id) ==> r == Ok::<(), DatabaseError>(()) && final(self)@
                == old(self)@,
            !old(self)@.has_guild(g.id) && old(self)@.has_user(g.owner_id) ==> r == Ok::<
                (),
                DatabaseError,
            >(()) && final(self)@ == (DbView { guilds: old(self)@.guilds.push(*g), ..old(self)@ }),
            !old(self)@.has_guild(g.id) && !old(self)@.has_user(g.owner_id) ==> r == Err::<
                (),
                DatabaseError,
            >(DatabaseError::PersistenceFailure) && final(self)@ == old(self)@,
    {
        if self.contains_guild(g.id) {
            return Ok(());
        }
        if !self.contains_user(g.owner_id) {
            return Err(DatabaseError::PersistenceFailure);
        }
        proof {
            lemma_wf_push_guild(self@, *g);
        }
        self.guilds.push(g.clone());
        Ok(())
    }

    /// Upsert a batch of users; a row whose id is already stored, or was
    /// already inserted by an earlier row of the batch, is ignored.
    pub fn save_users(&mut self, us: &Vec<User>) -> (r: Result<(), DatabaseError>)
        requires
            old(self)@.wf(),
        ensures
            final(self)@.wf(),
            r == Ok::<(), DatabaseError>(()),
            final(self)@ == (DbView {
                users: upsert_users(old(self)@.users, us@),
                ..old(self)@
            }),
    {
        let ghost v0 = self@;
        let mut k: usize = 0;
        while k < us.len()
            invariant
                0 <= k <= us.len(),
                self@.wf(),
                self@.guilds == v0.guilds,
                self@.channels == v0.channels,
                self@.messages == v0.messages,
                self@.emojis == v0.emojis,
                self@.users == upsert_users(v0.users, us@.take(k as int)),
            decreases us.len() - k,
        {
            proof {
                assert(us@.take(k + 1 as int).drop_last() =~= us@.take(k as int));
                assert(us@.take(k + 1 as int).last() == us@[k as int]);
            }
            if !self.contains_user(us[k].id) {
                proof {
                    lemma_wf_push_user(self@, us@[k as int]);
                }
                self.users.push(us[k].clone());
            }
            k += 1;
        }
        proof {
            assert(us@.take(us@.len() as int) =~= us@);
        }
        Ok(())
    }

    /// Whether a row among the first `k` of the batch has this id.
    fn channel_batch_prefix_has(cs: &Vec<Channel>, k: usize, id: u64) -> (r: bool)
        requires
            k <= cs.len(),
        ensures
            r == exists|j: int| 0 <= j < k && cs@[j].id == id,
    {
        let mut t: usize = 0;
        while t < k
            invariant
                0 <= t <= k <= cs.len(),
                forall|j: int| 0 <= j < t ==> cs@[j].id != id,
            decreases k - t,
        {
            if cs[t].id == id {
                proof {
                    assert(cs@[t as int].id == id);
                }
                return true;
            }
            t += 1;
        }
        false
    }

    /// Upsert a batch of channels; a conflicting row is ignored, and an
    /// inserted row always starts with `backfill_done` false, whatever the
    /// caller's snapshot says.  The whole batch is rejected, and nothing
    /// is written, when some row that would insert names a guild that is
    /// not stored.
    pub fn save_channels(&mut self, cs: &Vec<Channel>) -> (r: Result<(), DatabaseError>)
        requires
            old(self)@.wf(),
        ensures
            final(self)@.wf(),
            channel_batch_ok(old(self)@, fresh_channels(cs@)) ==> r == Ok::<(), DatabaseError>(())
                && final(self)@ == (DbView {
                channels: upsert_channels(old(self)@.channels, fresh_channels(cs@)),
                ..old(self)@
            }),
            !channel_batch_ok(old(self)@, fresh_channels(cs@)) ==> r == Err::<(), DatabaseError>(
                DatabaseError::PersistenceFailure,
            ) && final(self)@ == old(self)@,
    {
        let mut fresh: Vec<Channel> = Vec::new();
        let mut k: usize = 0;
        while k < cs.len()
            invariant
                0 <= k <= cs.len(),
                fresh@.len() == k,
                forall|i: int| 0 <= i < k ==> #[trigger] fresh@[i] == fresh_channel_spec(cs@[i]),
            decreases cs.len() - k,
        {
            let c = &cs[k];
            fresh.push(
                Channel {
                    id: c.id,
                    name: c.name.clone(),
                    guild_id: c.guild_id,
                    last_message_id: c.last_message_id,
                    backfill_done: false,
                },
            );
            k += 1;
        }
        proof {
            assert(fresh@ =~= fresh_channels(cs@));
        }
        let mut k: usize = 0;
        while k < fresh.len()
            invariant
                0 <= k <= fresh.len(),
                fresh@ == fresh_channels(cs@),
                old(self)@.wf(),
                self@ == old(self)@,
                forall|i: int|
                    0 <= i < k && channel_batch_row_new(self@, fresh@, i) ==> self@.channel_ok(
                        #[trigger] fresh@[i],
                    ),
            decreases fresh.len() - k,
        {
            let is_new = !self.contains_channel(fresh[k].id) && !Self::channel_batch_prefix_has(
                &fresh,
                k,
                fresh[k].id,
            );
            if is_new && !self.contains_guild(fresh[k].guild_id) {
                proof {
                    assert(channel_batch_row_new(self@, fresh@, k as int));
                    assert(!self@.channel_ok(fresh@[k as int]));
                }
                return Err(DatabaseError::PersistenceFailure);
            }
            k += 1;
        }
        let ghost v0 = self@;
        let mut k: usize = 0;
        while k < fresh.len()
            invariant
                0 <= k <= fresh.len(),
                fresh@ == fresh_channels(cs@),
                self@.wf(),
                channel_batch_ok(v0, fresh@),
                self@.guilds == v0.guilds,
                self@.users == v0.users,
                self@.messages == v0.messages,
                self@.emojis == v0.emojis,
                self@.channels == upsert_channels(v0.channels, fresh@.take(k as int)),
            decreases fresh.len() - k,
        {
            proof {
                assert(fresh@.take(k + 1 as int).drop_last() =~= fresh@.take(k as int));
                assert(fresh@.take(k + 1 as int).last() == fresh@[k as int]);
            }
            if !self.contains_channel(fresh[k].id) {
                proof {
                    lemma_upsert_channels_have(v0.channels, fresh@.take(k as int), fresh@[k as int].id);
                    assert forall|j: int| 0 <= j < k implies (#[trigger] fresh@[j]).id
                        != fresh@[k as int].id by {
                        if fresh@[j].id == fresh@[k as int].id {
                            assert(fresh@.take(k as int)[j].id == fresh@[k as int].id);
                        }
                    };
                    assert(channel_batch_row_new(v0, fresh@, k as int));
                    assert(v0.channel_ok(fresh@[k as int]));
                    lemma_wf_push_channel(self@, fresh@[k as int]);
                }
                self.channels.push(fresh[k].clone());
            }
            k += 1;
        }
        proof {
            assert(fresh@.take(fresh@.len() as int) =~= fresh@);
        }
        Ok(())
    }

    /// Whether a row among the first `k` of the batch has this id.
    fn message_batch_prefix_has(ms: &Vec<Message>, k: usize, id: u64) -> (r: bool)
        requires
            k <= ms.len(),
        ensures
            r == exists|j: int| 0 <= j < k && ms@[j].id == id,
    {
        let mut t: usize = 0;
        while t < k
            invariant
                0 <= t <= k <= ms.len(),
                forall|j: int| 0 <= j < t ==> ms@[j].id != id,
            decreases k - t,
        {
            if ms[t].id == id {
                proof {
                    assert(ms@[t as int].id == id);
                }
                return true;
            }
            t += 1;
        }
        false
    }

    /// Upsert a batch of messages; a conflicting row is ignored, which
    /// makes re-synchronizing already-stored history harmless.  The whole
    /// batch is rejected, and nothing is written, when some row that would
    /// insert names a channel, or a non-null author, that is not stored.
    pub fn save_messages(&mut self, ms: &Vec<Message>) -> (r: Result<(), DatabaseError>)
        requires
            old(self)@.wf(),
        ensures
            final(self)@.wf(),
            message_batch_ok(old(self)@, ms@) ==> r == Ok::<(), DatabaseError>(()) && final(self)@
                == (DbView { messages: upsert_messages(old(self)@.messages, ms@), ..old(self)@ }),
            !message_batch_ok(old(self)@, ms@) ==> r == Err::<(), DatabaseError>(
                DatabaseError::PersistenceFailure,
            ) && final(self)@ == old(self)@,
    {
        let mut k: usize = 0;
        while k < ms.len()
            invariant
                0 <= k <= ms.len(),
                old(self)@.wf(),
                self@ == old(self)@,
                forall|i: int|
                    0 <= i < k && message_batch_row_new(self@, ms@, i) ==> self@.message_ok(
                        #[trigger] ms@[i],
                    ),
            decreases ms.len() - k,
        {
            let is_new = !self.contains_message(ms[k].id) && !Self::message_batch_prefix_has(
                ms,
                k,
                ms[k].id,
            );
            if is_new {
                let fk_ok = self.contains_channel(ms[k].channel_id) && (match ms[k].author_id {
                    Some(a) => self.contains_user(a),
                    None => true,
                });
                if !fk_ok {
                    proof {
                        assert(message_batch_row_new(self@, ms@, k as int));
                        assert(!self@.message_ok(ms@[k as int]));
                    }
                    return Err(DatabaseError::PersistenceFailure);
                }
            }
            k += 1;
        }
        let ghost v0 = self@;
        let mut k: usize = 0;
        while k < ms.len()
            invariant
                0 <= k <= ms.len(),
                self@.wf(),
                message_batch_ok(v0, ms@),
                self@.guilds == v0.guilds,
                self@.users == v0.users,
                self@.channels == v0.channels,
                self@.emojis == v0.emojis,
                self@.messages == upsert_messages(v0.messages, ms@.take(k as int)),
            decreases ms.len() - k,
        {
            proof {
                assert(ms@.take(k + 1 as int).drop_last() =~= ms@.take(k as int));
                assert(ms@.take(k + 1 as int).last() == ms@[k as int]);
            }
            if !self.contains_message(ms[k].id) {
                proof {
                    lemma_upsert_messages_have(v0.messages, ms@.take(k as int), ms@[k as int].id);
                    assert forall|j: int| 0 <= j < k implies (#[trigger] ms@[j]).id
                        != ms@[k as int].id by {
                        if ms@[j].id == ms@[k as int].id {
                            assert(ms@.take(k as int)[j].id == ms@[k as int].id);
                        }
                    };
                    assert(message_batch_row_new(v0, ms@, k as int));
                    assert(v0.message_ok(ms@[k as int]));
                    lemma_wf_push_message(self@, ms@[k as int]);
                }
                self.messages.push(ms[k].clone());
            }
            k += 1;
        }
        proof {
            assert(ms@.take(ms@.len() as int) =~= ms@);
        }
        Ok(())
    }

    /// Point lookup of a channel by id.
    pub fn get_channel(&self, channel_id: u64) -> (r: Result<Channel, DatabaseError>)
        ensures
            r is Ok <==> self@.has_channel(channel_id),
            r matches Ok(c) ==> c.id == channel_id && exists|i: int|
                0 <= i < self@.channels.len() && self@.channels[i] == c,
            r is Err ==> r == Err::<Channel, DatabaseError>(DatabaseError::NotFound),
    {
        let mut k: usize = 0;
        while k < self.channels.len()
            invariant
                0 <= k <= self.channels.len(),
                forall|i: int| 0 <= i < k ==> self.channels@[i].id != channel_id,
            decreases self.channels.len() - k,
        {
            if self.channels[k].id == channel_id {
                proof {
                    assert(self@.channels[k as int].id == channel_id);
                }
                return Ok(self.channels[k].clone());
            }
            k += 1;
        }
        Err(DatabaseError::NotFound)
    }

    /// Point lookup of a message by id.
    pub fn _get_message(&self, message_id: u64) -> (r: Result<Message, DatabaseError>)
        ensures
            r is Ok <==> self@.has_message(message_id),
            r matches Ok(m) ==> m.id == message_id && exists|i: int|
                0 <= i < self@.messages.len() && self@.messages[i] == m,
            r is Err ==> r == Err::<Message, DatabaseError>(DatabaseError::NotFound),
    {
        let mut k: usize = 0;
        while k < self.messages.len()
            invariant
                0 <= k <= self.messages.len(),
                forall|i: int| 0 <= i < k ==> self.messages@[i].id != message_id,
            decreases self.messages.len() - k,
        {
            if self.messages[k].id == message_id {
                proof {
                    assert(self@.messages[k as int].id == message_id);
                }
                return Ok(self.messages[k].clone());
            }
            k += 1;
        }
        Err(DatabaseError::NotFound)
    }

    /// Mark a channel's backward backfill finished; the one field this
    /// store ever updates in place besides a user's emoji.
    pub fn set_channel_backfilled(&mut self, channel_id: u64) -> (r: Result<(), DatabaseError>)
        requires
            old(self)@.wf(),
        ensures
            final(self)@.wf(),
            r is Ok <==> old(self)@.has_channel(channel_id),
            r is Err ==> r == Err::<(), DatabaseError>(DatabaseError::NotFound) && final(self)@
                == old(self)@,
            r is Ok ==> exists|i: int|
                0 <= i < old(self)@.channels.len() && (#[trigger] old(self)@.channels[i]).id
                    == channel_id && final(self)@ == (DbView {
                    channels: old(self)@.channels.update(
                        i,
                        Channel {
                            backfill_done: true,
                            ..old(self)@.channels[i]
                        },
                    ),
                    ..old(self)@
                }),
    {
        let mut k: usize = 0;
        while k < self.channels.len()
            invariant
                0 <= k <= self.channels.len(),
                old(self)@.wf(),
                self@ == old(self)@,
                forall|i: int| 0 <= i < k ==> self.channels@[i].id != channel_id,
            decreases self.channels.len() - k,
        {
            if self.channels[k].id == channel_id {
                let updated = Channel {
                    id: self.channels[k].id,
                    name: self.channels[k].name.clone(),
                    guild_id: self.channels[k].guild_id,
                    last_message_id: self.channels[k].last_message_id,
                    backfill_done: true,
                };
                proof {
                    assert(updated == (Channel {
                        backfill_done: true,
                        ..self@.channels[k as int]
                    }));
                    lemma_wf_set_backfilled(self@, k as int, updated);
                }
                self.channels.set(k, updated);
                return Ok(());
            }
            k += 1;
        }
        Err(DatabaseError::NotFound)
    }

    /// The stored message of this channel with the smallest id, the
    /// backward cursor; derived from the data so it can never drift.
    /// Remote ids grow monotonically with creation time, so the smallest
    /// stored id is the earliest-timestamp row.
    pub fn get_channel_first_message(&self, channel_id: u64) -> (r: Option<Message>)
        ensures
            r is Some <==> self@.channel_has_messages(channel_id),
            r matches Some(m) ==> self@.is_oldest_message(channel_id, m),
    {
        let mut best: Option<Message> = None;
        let mut k: usize = 0;
        while k < self.messages.len()
            invariant
                0 <= k <= self.messages.len(),
                best is None ==> forall|i: int|
                    0 <= i < k ==> self.messages@[i].channel_id != channel_id,
                best matches Some(m) ==> m.channel_id == channel_id && (exists|i: int|
                    0 <= i < k && self.messages@[i] == m) && (forall|i: int|
                    0 <= i < k && #[trigger] self.messages@[i].channel_id == channel_id ==> m.id
                        <= self.messages@[i].id),
            decreases self.messages.len() - k,
        {
            if self.messages[k].channel_id == channel_id {
                let better = match &best {
                    None => true,
                    Some(b) => self.messages[k].id < b.id,
                };
                if better {
                    best = Some(self.messages[k].clone());
                    proof {
                        assert(self.messages@[k as int].channel_id == channel_id);
                    }
                }
            }
            k += 1;
        }
        best
    }

    /// The stored message of this channel with the largest id, the forward
    /// cursor; derived from the data so it can never drift.  Remote ids
    /// grow monotonically with creation time, so the largest stored id is
    /// the latest-timestamp row.
    pub fn get_channel_last_message(&self, channel_id: u64) -> (r: Option<Message>)
        ensures
            r is Some <==> self@.channel_has_messages(channel_id),
            r matches Some(m) ==> self@.is_newest_message(channel_id, m),
    {
        let mut best: Option<Message> = None;
        let mut k: usize = 0;
        while k < self.messages.len()
            invariant
                0 <= k <= self.messages.len(),
                best is None ==> forall|i: int|
                    0 <= i < k ==> self.messages@[i].channel_id != channel_id,
                best matches Some(m) ==> m.channel_id == channel_id && (exists|i: int|
                    0 <= i < k && self.messages@[i] == m) && (forall|i: int|
                    0 <= i < k && #[trigger] self.messages@[i].channel_id == channel_id
                        ==> self.messages@[i].id <= m.id),
            decreases self.messages.len() - k,
        {
            if self.messages[k].channel_id == channel_id {
                let better = match &best {
                    None => true,
                    Some(b) => self.messages[k].id > b.id,
                };
                if better {
                    best = Some(self.messages[k].clone());
                    proof {
                        assert(self.messages@[k as int].channel_id == channel_id);
                    }
                }
            }
            k += 1;
        }
        best
    }

    /// Set one user's emoji in one guild: overwrite the value of an
    /// existing (user, guild) row, append a new row otherwise; a new row
    /// is rejected while its user or guild is not stored.
    pub fn save_user_emoji(&mut self, user_id: u64, guild_id: u64, emoji: &str) -> (r: Result<
        (),
        DatabaseError,
    >)
        requires
            old(self)@.wf(),
        ensures
            final(self)@.wf(),
            old(self)@.has_user(user_id) && old(self)@.has_guild(guild_id) ==> r == Ok::<
                (),
                DatabaseError,
            >(()) && emojis_upserted(
                old(self)@.emojis,
                final(self)@.emojis,
                user_id,
                guild_id,
                emoji@,
            ) && final(self)@.guilds == old(self)@.guilds && final(self)@.users == old(self)@.users
                && final(self)@.channels == old(self)@.channels && final(self)@.messages == old(
                self,
            )@.messages,
            !(old(self)@.has_user(user_id) && old(self)@.has_guild(guild_id)) ==> r == Err::<
                (),
                DatabaseError,
            >(DatabaseError::PersistenceFailure) && final(self)@ == old(self)@,
    {
        if !self.contains_user(user_id) || !self.contains_guild(guild_id) {
            return Err(DatabaseError::PersistenceFailure);
        }
        let row = UserEmoji { user_id, guild_id, emoji: emoji.to_owned() };
        let mut k: usize = 0;
        while k < self.emojis.len()
            invariant
                0 <= k <= self.emojis.len(),
                old(self)@.wf(),
                self@ == old(self)@,
                row.user_id == user_id && row.guild_id == guild_id && row.emoji@ == emoji@,
                forall|i: int|
                    0 <= i < k ==> !((#[trigger] self.emojis@[i]).user_id == user_id
                        && self.emojis@[i].guild_id == guild_id),
            decreases self.emojis.len() - k,
        {
            if self.emojis[k].user_id == user_id && self.emojis[k].guild_id == guild_id {
                proof {
                    assert(self@.emojis[k as int].user_id == user_id && self@.emojis[k
                        as int].guild_id == guild_id);
                    lemma_wf_update_emoji(self@, k as int, row);
                }
                self.emojis.set(k, row);
                proof {
                    let oldv = old(self)@.emojis;
                    let newv = self@.emojis;
                    assert(newv == oldv.update(k as int, row));
                    assert(newv[k as int] == row);
                    assert(emojis_have(oldv, user_id, guild_id));
                    assert(emojis_upserted(oldv, newv, user_id, guild_id, emoji@));
                }
                return Ok(());
            }
            k += 1;
        }
        proof {
            assert(!emojis_have(self@.emojis, user_id, guild_id));
            assert(self@.emoji_ok(row));
            lemma_wf_push_emoji(self@, row);
        }
        self.emojis.push(row);
        proof {
            assert(final(self)@.emojis.drop_last() =~= old(self)@.emojis);
        }
        Ok(())
    }
}

} // verus!
