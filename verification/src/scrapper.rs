//! The scrape scheduler: a single-flight permit over a full scrape cycle.
//!
//! A trigger starts one cycle only when none is running and otherwise
//! returns at once; a skipped trigger is neither queued nor retried.  The
//! permit is the only cross-cycle synchronization the system has, so at
//! most one cycle is in flight system-wide.  A front end triggers it on a
//! fixed period and performs the remote calls of the cycle between
//! `try_begin` and `finish`.

use vstd::prelude::*;

use crate::database::{
    channel_batch_ok, fresh_channel_spec, fresh_channels, lemma_upsert_channels_have,
    lemma_upsert_channels_structure, lemma_upsert_users_have, upsert_channels, upsert_users,
    Database, DbView,
};
use crate::entities::{Channel, Guild, RemoteMessage, User};
use crate::error::DatabaseError;
use crate::sync::{
    all_history_stored, catchup_ready, channel_backfilled, distinct_remote_ids,
    foreign_ids_disjoint, history_for_channel, map_message_spec, members_known,
    stored_matches_history, sync_channel, upward_closed, SyncReport,
};

verus! {

/// The scheduler state: whether a scrape cycle is currently in flight.
pub struct Scrapper {
    running: bool,
}

/// How an acquire attempt relates the scheduler's states: it is granted
/// exactly when no cycle was running, and afterwards one is.
pub open spec fn acquire_transition(pre: Scrapper, post: Scrapper, granted: bool) -> bool {
    granted == !pre.is_running() && post.is_running()
}

impl Scrapper {
    /// Whether a cycle is in flight.
    pub closed spec fn is_running(&self) -> bool {
        self.running
    }

    /// A fresh scheduler with no cycle in flight.
    pub fn new() -> (s: Scrapper)
        ensures
            !s.is_running(),
    {
        Scrapper { running: false }
    }

    /// Acquire-or-skip: take the permit when free, report whether it was
    /// taken.  A caller that is refused does not wait.
    pub fn try_begin(&mut self) -> (granted: bool)
        ensures
            acquire_transition(*old(self), *final(self), granted),
            granted == !old(self).is_running(),
            final(self).is_running(),
    {
        if self.running {
            false
        } else {
            self.running = true;
            true
        }
    }

    /// Release the permit at the end of a cycle.
    pub fn finish(&mut self)
        requires
            old(self).is_running(),
        ensures
            !final(self).is_running(),
    {
        self.running = false;
    }
}

/// Single-flight: of two triggers against an idle scheduler, the first is
/// granted, and the second, arriving while the first cycle still runs, is
/// refused — exactly one cycle results.
pub proof fn lemma_single_flight(
    s0: Scrapper,
    s1: Scrapper,
    g1: bool,
    s2: Scrapper,
    g2: bool,
)
    requires
        !s0.is_running(),
        acquire_transition(s0, s1, g1),
        acquire_transition(s1, s2, g2),
    ensures
        g1,
        !g2,
{
}


/// One channel of a remote guild snapshot: its record and its full
/// message history, as the platform reports them at cycle start.
pub struct RemoteChannelSnapshot {
    pub channel: Channel,
    pub history: Vec<RemoteMessage>,
}

/// A remote guild snapshot taken at cycle start: the guild, its owner,
/// its full member list, and its text channels with their histories.  The
/// membership captured here governs message-author nullability for this
/// cycle only.
pub struct RemoteGuildSnapshot {
    pub guild: Guild,
    pub owner: User,
    pub members: Vec<User>,
    pub channels: Vec<RemoteChannelSnapshot>,
}

/// The member ids captured at cycle start, in list order.
pub open spec fn member_ids_of(s: RemoteGuildSnapshot) -> Seq<u64> {
    s.members@.map(|i: int, u: User| u.id)
}

/// No id occurs in both histories; remote ids are globally unique.
pub open spec fn histories_disjoint(a: Seq<RemoteMessage>, b: Seq<RemoteMessage>) -> bool {
    forall|x: int, y: int|
        0 <= x < a.len() && 0 <= y < b.len() ==> (#[trigger] a[x]).id != (#[trigger] b[y]).id
}

/// The snapshot is internally consistent, as the remote platform
/// promises: each history belongs to its channel with distinct ids, each
/// channel belongs to the guild, channel ids never repeat, and no message
/// id occurs in two channels.
pub open spec fn snapshot_wf(s: RemoteGuildSnapshot) -> bool {
    &&& s.owner.id == s.guild.owner_id
    &&& forall|k: int|
        0 <= k < s.channels@.len() ==> history_for_channel(
            (#[trigger] s.channels@[k]).history@,
            s.channels@[k].channel.id,
        )
    &&& forall|k: int|
        0 <= k < s.channels@.len() ==> distinct_remote_ids((#[trigger] s.channels@[k]).history@)
    &&& forall|k: int|
        0 <= k < s.channels@.len() ==> (#[trigger] s.channels@[k]).channel.guild_id == s.guild.id
    &&& forall|k: int|
        0 <= k < s.channels@.len() ==> (#[trigger] s.channels@[k]).history@.len() + 2 <= u64::MAX
    &&& forall|k: int, k2: int|
        0 <= k < k2 < s.channels@.len() ==> (#[trigger] s.channels@[k]).channel.id != (
        #[trigger] s.channels@[k2]).channel.id
    &&& forall|k: int, k2: int|
        0 <= k < s.channels@.len() && 0 <= k2 < s.channels@.len() && k != k2 ==> histories_disjoint(
            (#[trigger] s.channels@[k]).history@,
            (#[trigger] s.channels@[k2]).history@,
        )
}

/// The store carries the protocol's standing invariants for every channel
/// of the snapshot, so a cycle can synchronize each of them.
pub open spec fn cycle_ready(v: DbView, s: RemoteGuildSnapshot) -> bool {
    &&& forall|k: int|
        0 <= k < s.channels@.len() ==> stored_matches_history(
            v,
            (#[trigger] s.channels@[k]).channel.id,
            s.channels@[k].history@,
            member_ids_of(s),
        )
    &&& forall|k: int|
        0 <= k < s.channels@.len() ==> foreign_ids_disjoint(
            v,
            (#[trigger] s.channels@[k]).channel.id,
            s.channels@[k].history@,
        )
    &&& forall|k: int|
        0 <= k < s.channels@.len() ==> upward_closed(
            v,
            (#[trigger] s.channels@[k]).channel.id,
            s.channels@[k].history@,
        )
    &&& forall|k: int|
        0 <= k < s.channels@.len() ==> (channel_backfilled(
            v,
            (#[trigger] s.channels@[k]).channel.id,
        ) ==> catchup_ready(v, s.channels@[k].channel.id, s.channels@[k].history@))
}

/// Snapshot-refresh of the guild's entities, in foreign-key order: the
/// owner and members first, then the guild, then its channels.  Only the
/// users and guild and channel tables change; every write succeeds.
#[verifier::rlimit(100)]
#[verifier::spinoff_prover]
fn upsert_guild_entities(db: &mut Database, remote: &RemoteGuildSnapshot, member_ids: &Vec<u64>)
    requires
        old(db)@.wf(),
        snapshot_wf(*remote),
        member_ids@ == member_ids_of(*remote),
    ensures
        final(db)@.wf(),
        final(db)@.messages == old(db)@.messages,
        final(db)@.emojis == old(db)@.emojis,
        members_known(final(db)@, member_ids@),
        final(db)@.has_guild(remote.guild.id),
        forall|t: int|
            0 <= t < remote.channels@.len() ==> final(db)@.has_channel(
                (#[trigger] remote.channels@[t]).channel.id,
            ),
        forall|cid: u64|
            channel_backfilled(final(db)@, cid) == channel_backfilled(old(db)@, cid),
{
    let ghost v0 = old(db)@;
    let saved_owner = db.save_user(&remote.owner);
    proof {
        if !v0.has_user(remote.owner.id) {
            assert(db@.users[db@.users.len() - 1].id == remote.owner.id);
        }
        assert(db@.has_user(remote.owner.id));
    }
    let ghost va = db@;
    let saved_members = db.save_users(&remote.members);
    proof {
        assert(db@.users == upsert_users(va.users, remote.members@));
        assert forall|j: int| 0 <= j < member_ids@.len() implies db@.has_user(
            #[trigger] member_ids@[j],
        ) by {
            assert(member_ids@[j] == remote.members@[j].id);
            lemma_upsert_users_have(va.users, remote.members@, member_ids@[j]);
        };
        lemma_upsert_users_have(va.users, remote.members@, remote.guild.owner_id);
        assert(db@.has_user(remote.guild.owner_id));
    }
    let ghost vb = db@;
    let saved_guild = db.save_guild(&remote.guild);
    proof {
        assert(saved_guild is Ok);
        if !vb.has_guild(remote.guild.id) {
            assert(db@.guilds[db@.guilds.len() - 1].id == remote.guild.id);
        }
        assert(db@.has_guild(remote.guild.id));
    }
    let mut chans: Vec<Channel> = Vec::new();
    let mut k: usize = 0;
    while k < remote.channels.len()
        invariant
            0 <= k <= remote.channels@.len(),
            chans@.len() == k,
            forall|i: int| 0 <= i < k ==> #[trigger] chans@[i] == remote.channels@[i].channel,
        decreases remote.channels@.len() - k,
    {
        chans.push(remote.channels[k].channel.clone());
        k += 1;
    }
    let ghost vc = db@;
    let saved_channels = db.save_channels(&chans);
    proof {
        let fresh = fresh_channels(chans@);
        assert forall|i: int|
            0 <= i < fresh.len() implies vc.channel_ok(#[trigger] fresh[i]) by {
            assert(fresh[i] == fresh_channel_spec(chans@[i]));
            assert(chans@[i] == remote.channels@[i].channel);
            assert(chans@[i].guild_id == remote.guild.id);
        };
        assert(channel_batch_ok(vc, fresh));
        assert(saved_channels is Ok);
        assert(db@.channels == upsert_channels(vc.channels, fresh));
        lemma_upsert_channels_structure(vc.channels, fresh);
        assert forall|t: int| 0 <= t < remote.channels@.len() implies db@.has_channel(
            (#[trigger] remote.channels@[t]).channel.id,
        ) by {
            assert(fresh[t] == fresh_channel_spec(chans@[t]));
            assert(chans@[t] == remote.channels@[t].channel);
            assert(fresh[t].id == remote.channels@[t].channel.id);
            lemma_upsert_channels_have(vc.channels, fresh, remote.channels@[t].channel.id);
        };
        assert forall|cid: u64|
            channel_backfilled(db@, cid) == channel_backfilled(vc, cid) by {
            if channel_backfilled(vc, cid) {
                let i = choose|i: int|
                    0 <= i < vc.channels.len() && (#[trigger] vc.channels[i]).id == cid
                        && vc.channels[i].backfill_done;
                assert(db@.channels[i] == vc.channels[i]);
            }
            if channel_backfilled(db@, cid) {
                let i = choose|i: int|
                    0 <= i < db@.channels.len() && (#[trigger] db@.channels[i]).id == cid
                        && db@.channels[i].backfill_done;
                if i >= vc.channels.len() {
                    let j = choose|j: int|
                        0 <= j < fresh.len() && #[trigger] db@.channels[i] == fresh[j];
                    assert(fresh[j] == fresh_channel_spec(chans@[j]));
                    assert(!db@.channels[i].backfill_done);
                }
            }
        };
        // the users written earlier are untouched by the guild and
        // channel writes
        assert(members_known(db@, member_ids@));
        // nothing before the channel write touched the channel table
        assert(vc.channels == v0.channels);
        assert forall|cid: u64|
            channel_backfilled(vc, cid) == channel_backfilled(v0, cid) by {
            if channel_backfilled(v0, cid) {
                let i = choose|i: int|
                    0 <= i < v0.channels.len() && (#[trigger] v0.channels[i]).id == cid
                        && v0.channels[i].backfill_done;
                assert(vc.channels[i] == v0.channels[i]);
            }
            if channel_backfilled(vc, cid) {
                let i = choose|i: int|
                    0 <= i < vc.channels.len() && (#[trigger] vc.channels[i]).id == cid
                        && vc.channels[i].backfill_done;
                assert(v0.channels[i] == vc.channels[i]);
            }
        };
    }
}

/// One full scrape cycle against one remote guild snapshot: refresh the
/// guild's entities in foreign-key order (owner, members, guild,
/// channels), then synchronize every channel, each against its own
/// history; one channel's failure is recorded in its slot and does not
/// abort its siblings.  Under the snapshot and protocol invariants every
/// step succeeds, and afterwards every channel's remote history is
/// stored.
#[verifier::rlimit(100)]
#[verifier::spinoff_prover]
pub fn run_cycle(db: &mut Database, remote: &RemoteGuildSnapshot, page_size: u8) -> (r: Result<
    Vec<Result<SyncReport, DatabaseError>>,
    DatabaseError,
>)
    requires
        old(db)@.wf(),
        snapshot_wf(*remote),
        cycle_ready(old(db)@, *remote),
        page_size >= 1,
    ensures
        final(db)@.wf(),
        r is Ok,
        r matches Ok(results) ==> {
            &&& results@.len() == remote.channels@.len()
            &&& final(db)@.has_guild(remote.guild.id)
            &&& forall|k: int| 0 <= k < results@.len() ==> (#[trigger] results@[k]) is Ok
            &&& forall|k: int|
                0 <= k < remote.channels@.len() ==> all_history_stored(
                    final(db)@,
                    (#[trigger] remote.channels@[k]).history@,
                )
        },
{
    // the membership set captured at cycle start governs this cycle only
    let mut member_ids: Vec<u64> = Vec::new();
    let mut j: usize = 0;
    while j < remote.members.len()
        invariant
            0 <= j <= remote.members@.len(),
            member_ids@.len() == j,
            forall|i: int| 0 <= i < j ==> #[trigger] member_ids@[i] == remote.members@[i].id,
        decreases remote.members@.len() - j,
    {
        member_ids.push(remote.members[j].id);
        j += 1;
    }
    proof {
        assert(member_ids@ =~= member_ids_of(*remote));
    }
    let ghost v0 = db@;
    upsert_guild_entities(db, remote, &member_ids);
    let ghost v1 = db@;
    proof {
        // the entity writes leave the message table alone, so the
        // per-channel protocol invariants carry over unchanged
        assert forall|k: int| 0 <= k < remote.channels@.len() implies stored_matches_history(
            v1,
            (#[trigger] remote.channels@[k]).channel.id,
            remote.channels@[k].history@,
            member_ids@,
        ) && foreign_ids_disjoint(v1, remote.channels@[k].channel.id, remote.channels@[k].history@)
            && upward_closed(v1, remote.channels@[k].channel.id, remote.channels@[k].history@) && (
        channel_backfilled(v1, remote.channels@[k].channel.id) ==> catchup_ready(
            v1,
            remote.channels@[k].channel.id,
            remote.channels@[k].history@,
        )) by {
            assert(stored_matches_history(
                v0,
                remote.channels@[k].channel.id,
                remote.channels@[k].history@,
                member_ids_of(*remote),
            ));
            assert(foreign_ids_disjoint(
                v0,
                remote.channels@[k].channel.id,
                remote.channels@[k].history@,
            ));
            assert(upward_closed(v0, remote.channels@[k].channel.id, remote.channels@[k].history@));
            assert(v1.messages == v0.messages);
        };
    }
    let mut results: Vec<Result<SyncReport, DatabaseError>> = Vec::new();
    let mut k: usize = 0;
    while k < remote.channels.len()
        invariant
            0 <= k <= remote.channels@.len(),
            db@.wf(),
            snapshot_wf(*remote),
            member_ids@ == member_ids_of(*remote),
            members_known(db@, member_ids@),
            page_size >= 1,
            results@.len() == k,
            forall|t: int| 0 <= t < k ==> (#[trigger] results@[t]) is Ok,
            db@.has_guild(remote.guild.id),
            forall|t: int|
                0 <= t < remote.channels@.len() ==> db@.has_channel(
                    (#[trigger] remote.channels@[t]).channel.id,
                ),
            forall|t: int|
                0 <= t < k ==> all_history_stored(db@, (#[trigger] remote.channels@[t]).history@),
            forall|t: int|
                k <= t < remote.channels@.len() ==> stored_matches_history(
                    db@,
                    (#[trigger] remote.channels@[t]).channel.id,
                    remote.channels@[t].history@,
                    member_ids@,
                ),
            forall|t: int|
                k <= t < remote.channels@.len() ==> foreign_ids_disjoint(
                    db@,
                    (#[trigger] remote.channels@[t]).channel.id,
                    remote.channels@[t].history@,
                ),
            forall|t: int|
                k <= t < remote.channels@.len() ==> upward_closed(
                    db@,
                    (#[trigger] remote.channels@[t]).channel.id,
                    remote.channels@[t].history@,
                ),
            forall|t: int|
                k <= t < remote.channels@.len() ==> (channel_backfilled(
                    db@,
                    (#[trigger] remote.channels@[t]).channel.id,
                ) ==> catchup_ready(
                    db@,
                    remote.channels@[t].channel.id,
                    remote.channels@[t].history@,
                )),
        decreases remote.channels@.len() - k,
    {
        let rc = &remote.channels[k];
        let ghost vpre = db@;
        let res = sync_channel(db, rc.channel.id, &rc.history, &member_ids, page_size);
        proof {
            assert(res is Ok);
            let vpost = db@;
            let ghost cid_k = remote.channels@[k as int].channel.id;
            let ghost hist_k = remote.channels@[k as int].history@;
            // rows appended by this channel's sync belong to it alone
            assert forall|i: int|
                vpre.messages.len() <= i < vpost.messages.len() implies (
            #[trigger] vpost.messages[i]).channel_id == cid_k && crate::sync::remote_has_id(
                hist_k,
                vpost.messages[i].id,
            ) by {
                let x = choose|x: int|
                    0 <= x < hist_k.len() && #[trigger] vpost.messages[i] == map_message_spec(
                        hist_k[x],
                        member_ids@,
                    );
                assert(hist_k[x].channel_id == cid_k);
                assert(vpost.messages[i].id == hist_k[x].id);
            };
            // the one channel record that changed keeps its id, so every
            // channel stays present and every other flag is unchanged
            assert forall|t: int|
                0 <= t < remote.channels@.len() implies vpost.has_channel(
                (#[trigger] remote.channels@[t]).channel.id,
            ) by {
                let cid_t = remote.channels@[t].channel.id;
                let i = choose|i: int|
                    0 <= i < vpre.channels.len() && (#[trigger] vpre.channels[i]).id == cid_t;
                if vpost.channels == vpre.channels {
                    assert(vpost.channels[i].id == cid_t);
                } else {
                    let i0 = choose|i0: int|
                        0 <= i0 < vpre.channels.len() && (#[trigger] vpre.channels[i0]).id == cid_k
                            && vpost.channels == vpre.channels.update(
                            i0,
                            (Channel { backfill_done: true, ..vpre.channels[i0] }),
                        );
                    assert(vpost.channels[i].id == cid_t);
                }
            };
            assert forall|t: int|
                k as int + 1 <= t < remote.channels@.len() && channel_backfilled(
                    vpost,
                    (#[trigger] remote.channels@[t]).channel.id,
                ) implies channel_backfilled(vpre, remote.channels@[t].channel.id) by {
                let cid_t = remote.channels@[t].channel.id;
                assert(cid_t != cid_k);
                let i = choose|i: int|
                    0 <= i < vpost.channels.len() && (#[trigger] vpost.channels[i]).id == cid_t
                        && vpost.channels[i].backfill_done;
                if vpost.channels == vpre.channels {
                    assert(vpre.channels[i].id == cid_t && vpre.channels[i].backfill_done);
                } else {
                    let i0 = choose|i0: int|
                        0 <= i0 < vpre.channels.len() && (#[trigger] vpre.channels[i0]).id == cid_k
                            && vpost.channels == vpre.channels.update(
                            i0,
                            (Channel { backfill_done: true, ..vpre.channels[i0] }),
                        );
                    assert(i != i0);
                    assert(vpre.channels[i].id == cid_t && vpre.channels[i].backfill_done);
                }
            };
            // histories already synchronized stay stored
            assert forall|t: int|
                0 <= t < k as int + 1 implies all_history_stored(
                db@,
                (#[trigger] remote.channels@[t]).history@,
            ) by {
                if t < k as int {
                    let hist_t = remote.channels@[t].history@;
                    assert forall|x: int| 0 <= x < hist_t.len() implies db@.has_message(
                        (#[trigger] hist_t[x]).id,
                    ) by {
                        assert(vpre.has_message(hist_t[x].id));
                        let i = choose|i: int|
                            0 <= i < vpre.messages.len() && (#[trigger] vpre.messages[i]).id
                                == hist_t[x].id;
                        assert(db@.messages[i] == vpre.messages[i]);
                    };
                }
            };
            // the protocol invariants of the channels still ahead survive:
            // the new rows sit in this channel, with this history's ids
            assert forall|t: int|
                k as int + 1 <= t < remote.channels@.len() implies stored_matches_history(
                db@,
                (#[trigger] remote.channels@[t]).channel.id,
                remote.channels@[t].history@,
                member_ids@,
            ) && foreign_ids_disjoint(
                db@,
                remote.channels@[t].channel.id,
                remote.channels@[t].history@,
            ) && upward_closed(
                db@,
                remote.channels@[t].channel.id,
                remote.channels@[t].history@,
            ) && (channel_backfilled(db@, remote.channels@[t].channel.id) ==> catchup_ready(
                db@,
                remote.channels@[t].channel.id,
                remote.channels@[t].history@,
            )) by {
                let cid_t = remote.channels@[t].channel.id;
                let hist_t = remote.channels@[t].history@;
                assert(cid_t != cid_k);
                assert(histories_disjoint(hist_k, hist_t));
                assert(stored_matches_history(vpre, cid_t, hist_t, member_ids@));
                assert(foreign_ids_disjoint(vpre, cid_t, hist_t));
                assert(upward_closed(vpre, cid_t, hist_t));
                assert forall|i: int|
                    0 <= i < db@.messages.len() && (#[trigger] db@.messages[i]).channel_id == cid_t
                        implies exists|x: int|
                    0 <= x < hist_t.len() && db@.messages[i] == map_message_spec(
                        #[trigger] hist_t[x],
                        member_ids@,
                    ) by {
                    assert(db@.messages[i] == vpre.messages[i]);
                };
                assert forall|i: int, x: int|
                    0 <= i < db@.messages.len() && 0 <= x < hist_t.len() && (
                    #[trigger] db@.messages[i]).channel_id != cid_t implies db@.messages[i].id != (
                    #[trigger] hist_t[x]).id by {
                    if i < vpre.messages.len() {
                        assert(db@.messages[i] == vpre.messages[i]);
                    } else {
                        assert(crate::sync::remote_has_id(hist_k, db@.messages[i].id));
                        let y = choose|y: int|
                            0 <= y < hist_k.len() && (#[trigger] hist_k[y]).id
                                == db@.messages[i].id;
                        assert(hist_k[y].id != hist_t[x].id);
                    }
                };
                assert forall|i: int, x: int|
                    0 <= i < db@.messages.len() && 0 <= x < hist_t.len() && (
                    #[trigger] db@.messages[i]).channel_id == cid_t && (#[trigger] hist_t[x]).id
                        >= db@.messages[i].id implies db@.has_message(hist_t[x].id) by {
                    assert(db@.messages[i] == vpre.messages[i]);
                    assert(vpre.has_message(hist_t[x].id));
                    let w = choose|w: int|
                        0 <= w < vpre.messages.len() && (#[trigger] vpre.messages[w]).id
                            == hist_t[x].id;
                    assert(db@.messages[w] == vpre.messages[w]);
                };
                if channel_backfilled(db@, cid_t) {
                    assert(channel_backfilled(vpre, cid_t));
                    assert(catchup_ready(vpre, cid_t, hist_t));
                    assert forall|x: int| 0 <= x < hist_t.len() implies db@.has_message(
                        (#[trigger] hist_t[x]).id,
                    ) || (db@.channel_has_messages(cid_t) && forall|i: int|
                        0 <= i < db@.messages.len() && (#[trigger] db@.messages[i]).channel_id
                            == cid_t ==> db@.messages[i].id < hist_t[x].id) by {
                        if vpre.has_message(hist_t[x].id) {
                            let w = choose|w: int|
                                0 <= w < vpre.messages.len() && (#[trigger] vpre.messages[w]).id
                                    == hist_t[x].id;
                            assert(db@.messages[w] == vpre.messages[w]);
                            assert(db@.has_message(hist_t[x].id));
                        } else {
                            assert(vpre.channel_has_messages(cid_t));
                            let w = choose|w: int|
                                0 <= w < vpre.messages.len() && (
                                #[trigger] vpre.messages[w]).channel_id == cid_t;
                            assert(db@.messages[w] == vpre.messages[w]);
                            assert(db@.channel_has_messages(cid_t));
                            assert forall|i: int|
                                0 <= i < db@.messages.len() && (
                                #[trigger] db@.messages[i]).channel_id == cid_t implies
                                db@.messages[i].id < hist_t[x].id by {
                                assert(db@.messages[i] == vpre.messages[i]);
                            };
                        }
                    };
                    assert(catchup_ready(db@, cid_t, hist_t));
                }
            };
        }
        results.push(res);
        k += 1;
    }
    Ok(results)
}


impl Scrapper {
    /// The trigger: run one full scrape cycle if none is running,
    /// otherwise return at once — the skipped trigger is neither queued
    /// nor retried.  The permit is held for the whole cycle and released
    /// afterwards, whatever the per-channel outcomes were.
    pub fn scrap(&mut self, db: &mut Database, remote: &RemoteGuildSnapshot, page_size: u8) -> (ran:
        bool)
        requires
            old(db)@.wf(),
            snapshot_wf(*remote),
            cycle_ready(old(db)@, *remote),
            page_size >= 1,
        ensures
            final(db)@.wf(),
            ran == !old(self).is_running(),
            final(self).is_running() == old(self).is_running(),
            !ran ==> final(db)@ == old(db)@,
            ran ==> forall|k: int|
                0 <= k < remote.channels@.len() ==> all_history_stored(
                    final(db)@,
                    (#[trigger] remote.channels@[k]).history@,
                ),
    {
        if !self.try_begin() {
            return false;
        }
        let outcome = run_cycle(db, remote, page_size);
        proof {
            match outcome {
                Ok(results) => {},
                Err(e) => {
                    assert(false);
                },
            }
        }
        self.finish();
        true
    }
}

} // verus!
