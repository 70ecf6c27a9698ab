//! The author-activity ranking: the non-bot users with at least one stored
//! message in a guild, ordered by how many messages they authored there.
//!
//! Ties are broken deterministically by ascending id, a strengthening the
//! reference behaviour leaves open.  The ranked ids are exactly the
//! eligible author ids the sampling engine is fed.

use vstd::prelude::*;

use crate::database::{Database, DbView};
use crate::entities::{Message, User, UserWithEmoji};

verus! {

/// The message counts toward `uid`'s activity in `guild_id`.
pub open spec fn authored_in_guild(v: DbView, guild_id: u64, uid: u64, m: Message) -> bool {
    &&& m.author_id == Some(uid)
    &&& exists|i: int|
        0 <= i < v.channels.len() && (#[trigger] v.channels[i]).id == m.channel_id
            && v.channels[i].guild_id == guild_id
}

/// How many of `msgs` count toward `uid`'s activity in `guild_id`.
#[verifier::opaque]
pub open spec fn count_authored(msgs: Seq<Message>, v: DbView, guild_id: u64, uid: u64) -> nat
    decreases msgs.len(),
{
    if msgs.len() == 0 {
        0
    } else {
        count_authored(msgs.drop_last(), v, guild_id, uid) + (if authored_in_guild(
            v,
            guild_id,
            uid,
            msgs.last(),
        ) {
            1nat
        } else {
            0nat
        })
    }
}

/// `uid`'s activity: how many stored messages it authored in the guild.
pub open spec fn author_count(v: DbView, guild_id: u64, uid: u64) -> nat {
    count_authored(v.messages, v, guild_id, uid)
}

/// A user belongs in the ranking: not a bot, and at least one authored
/// message in the guild.
pub open spec fn eligible_author(v: DbView, guild_id: u64, u: User) -> bool {
    &&& !u.bot
    &&& author_count(v, guild_id, u.id) >= 1
}

/// How many of `users` belong in the ranking.
#[verifier::opaque]
pub open spec fn count_eligible(users: Seq<User>, v: DbView, guild_id: u64) -> nat
    decreases users.len(),
{
    if users.len() == 0 {
        0
    } else {
        count_eligible(users.drop_last(), v, guild_id) + (if eligible_author(
            v,
            guild_id,
            users.last(),
        ) {
            1nat
        } else {
            0nat
        })
    }
}

/// The ranking order: more messages first, equal counts broken by
/// ascending id.  A strict total order on distinct ids.
pub open spec fn ranked_before(v: DbView, guild_id: u64, a: u64, b: u64) -> bool {
    ||| author_count(v, guild_id, a) > author_count(v, guild_id, b)
    ||| (author_count(v, guild_id, a) == author_count(v, guild_id, b) && a < b)
}

/// Some ranked row carries this id.
pub open spec fn ranking_has(s: Seq<UserWithEmoji>, id: u64) -> bool {
    exists|i: int| 0 <= i < s.len() && s[i].id == id
}

/// The ranked row mirrors an eligible stored user: same id, same name.
pub open spec fn ranked_row_matches_user(v: DbView, guild_id: u64, e: UserWithEmoji) -> bool {
    exists|j: int|
        0 <= j < v.users.len() && (#[trigger] v.users[j]).id == e.id && v.users[j].name == e.name
            && eligible_author(v, guild_id, v.users[j])
}

/// An internal ranking row: a candidate author together with its activity
/// count, kept while the ranking is assembled.
struct RankEntry {
    id: u64,
    name: String,
    count: usize,
}

impl Clone for RankEntry {
    fn clone(&self) -> (r: Self)
        ensures
            r == *self,
    {
        RankEntry { id: self.id, name: self.name.clone(), count: self.count }
    }
}

/// The assembled order on internal rows.
spec fn entry_before(a: RankEntry, b: RankEntry) -> bool {
    ||| a.count > b.count
    ||| (a.count == b.count && a.id < b.id)
}

/// The internal rows are strictly ordered.
spec fn sorted_entries(s: Seq<RankEntry>) -> bool {
    forall|t: int, u: int| 0 <= t < u < s.len() ==> entry_before(#[trigger] s[t], #[trigger] s[u])
}

/// The row mirrors an eligible stored user: same id, same name.
spec fn entry_corresponds(v: DbView, guild_id: u64, e: RankEntry) -> bool {
    exists|j: int|
        0 <= j < v.users.len() && (#[trigger] v.users[j]).id == e.id && v.users[j].name == e.name
            && eligible_author(v, guild_id, v.users[j])
}

/// The row carries the activity count of its id.
spec fn entry_counted(v: DbView, guild_id: u64, e: RankEntry) -> bool {
    e.count as nat == author_count(v, guild_id, e.id)
}

/// The row's id is the id of one of the first `k` stored users.
spec fn entry_id_from_prefix(v: DbView, k: int, e: RankEntry) -> bool {
    exists|j: int| 0 <= j < k && (#[trigger] v.users[j]).id == e.id
}

/// The row is one of the rows of `c`.
spec fn entry_in(c: Seq<RankEntry>, e: RankEntry) -> bool {
    exists|x: int| 0 <= x < c.len() && #[trigger] c[x] == e
}

/// The row's id is the id of one of the first `k` rows of `c`.
spec fn entry_id_in_prefix(c: Seq<RankEntry>, k: int, e: RankEntry) -> bool {
    exists|x: int| 0 <= x < k && (#[trigger] c[x]).id == e.id
}

/// No two rows share an id.
spec fn distinct_entry_ids(s: Seq<RankEntry>) -> bool {
    forall|t: int, u: int| 0 <= t < u < s.len() ==> (#[trigger] s[t]).id != (#[trigger] s[u]).id
}

/// The position where a new row belongs in a strictly ordered vector:
/// everything before it ranks before `e`, and the row at it (if any)
/// does not.
fn find_insert_pos(s: &Vec<RankEntry>, e: &RankEntry) -> (pos: usize)
    ensures
        pos <= s@.len(),
        forall|t: int| 0 <= t < pos ==> entry_before(#[trigger] s@[t], *e),
        pos < s@.len() ==> !entry_before(s@[pos as int], *e),
{
    let mut pos: usize = 0;
    while pos < s.len()
        invariant
            0 <= pos <= s@.len(),
            forall|t: int| 0 <= t < pos ==> entry_before(#[trigger] s@[t], *e),
        decreases s@.len() - pos,
    {
        let cur = &s[pos];
        if !(cur.count > e.count || (cur.count == e.count && cur.id < e.id)) {
            proof {
                assert(!entry_before(s@[pos as int], *e));
            }
            return pos;
        }
        proof {
            assert(entry_before(s@[pos as int], *e));
        }
        pos += 1;
    }
    pos
}

/// Insert a row with a fresh id into a strictly ordered vector, keeping
/// the order; every old row survives and nothing else appears.
fn insert_ranked(s: &mut Vec<RankEntry>, e: RankEntry)
    requires
        sorted_entries(old(s)@),
        forall|t: int| 0 <= t < old(s)@.len() ==> (#[trigger] old(s)@[t]).id != e.id,
    ensures
        final(s)@.len() == old(s)@.len() + 1,
        sorted_entries(final(s)@),
        forall|t: int|
            0 <= t < final(s)@.len() ==> #[trigger] final(s)@[t] == e || exists|x: int|
                0 <= x < old(s)@.len() && #[trigger] old(s)@[x] == final(s)@[t],
        forall|x: int|
            #![trigger old(s)@[x]]
            0 <= x < old(s)@.len() ==> exists|t: int|
                0 <= t < final(s)@.len() && #[trigger] final(s)@[t] == old(s)@[x],
        exists|t: int| 0 <= t < final(s)@.len() && #[trigger] final(s)@[t] == e,
{
    let pos: usize = find_insert_pos(s, &e);
    proof {
        old(s)@.insert_ensures(pos as int, e);
        assert forall|t: int| pos as int <= t < old(s)@.len() implies entry_before(
            e,
            #[trigger] old(s)@[t],
        ) by {
            if t == pos as int {
                assert(!entry_before(old(s)@[t], e));
                assert(old(s)@[t].id != e.id);
            } else {
                assert(!entry_before(old(s)@[pos as int], e));
                assert(entry_before(old(s)@[pos as int], old(s)@[t]));
                assert(old(s)@[pos as int].id != e.id);
            }
        };
    }
    s.insert(pos, e);
    proof {
        let v0 = old(s)@;
        let v1 = s@;
        assert forall|t: int, u: int| 0 <= t < u < v1.len() implies entry_before(
            #[trigger] v1[t],
            #[trigger] v1[u],
        ) by {
            if u < pos as int {
                assert(v1[t] == v0[t] && v1[u] == v0[u]);
            } else if t < pos as int && u == pos as int {
                assert(v1[t] == v0[t] && v1[u] == e);
            } else if t < pos as int && u > pos as int {
                assert(v1[t] == v0[t] && v1[u] == v0[u - 1]);
                assert(entry_before(v0[t], v0[u - 1]));
            } else if t == pos as int {
                assert(v1[t] == e && v1[u] == v0[u - 1]);
            } else {
                assert(v1[t] == v0[t - 1] && v1[u] == v0[u - 1]);
            }
        };
        assert forall|t: int| 0 <= t < v1.len() implies v1[t] == e || exists|x: int|
            0 <= x < v0.len() && v0[x] == v1[t] by {
            if t < pos as int {
                assert(v0[t] == v1[t]);
            } else if t > pos as int {
                assert(v0[t - 1] == v1[t]);
            }
        };
        assert forall|x: int| 0 <= x < v0.len() implies exists|t: int|
            0 <= t < v1.len() && v1[t] == #[trigger] v0[x] by {
            if x < pos as int {
                assert(v1[x] == v0[x]);
            } else {
                assert(v1[x + 1] == v0[x]);
            }
        };
        assert(v1[pos as int] == e);
    }
}

impl Database {
    /// `uid`'s activity count in the guild, from the stored messages.
    fn count_authored_in(&self, guild_id: u64, uid: u64) -> (c: usize)
        requires
            self@.wf(),
        ensures
            c as nat == author_count(self@, guild_id, uid),
    {
        let mut c: usize = 0;
        let mut k: usize = 0;
        proof {
            reveal(count_authored);
            assert(count_authored(self@.messages.take(0), self@, guild_id, uid) == 0);
        }
        while k < self.messages_len()
            invariant
                self@.wf(),
                0 <= k <= self@.messages.len(),
                c as nat == count_authored(
                    self@.messages.take(k as int),
                    self@,
                    guild_id,
                    uid,
                ),
                c <= k,
            decreases self@.messages.len() - k,
        {
            proof {
                reveal(count_authored);
                assert(self@.messages.take(k + 1 as int).drop_last() =~= self@.messages.take(
                    k as int,
                ));
                assert(self@.messages.take(k + 1 as int).last() == self@.messages[k as int]);
            }
            let m = self.message_at(k);
            let counts = match m.author_id {
                Some(a) => a == uid && self.channel_in_guild(m.channel_id, guild_id),
                None => false,
            };
            proof {
                assert(counts == authored_in_guild(self@, guild_id, uid, self@.messages[k as int]));
            }
            if counts {
                c += 1;
            }
            k += 1;
        }
        proof {
            assert(self@.messages.take(self@.messages.len() as int) =~= self@.messages);
        }
        c
    }

    /// One unsorted row for every eligible author of the guild, with its
    /// activity count; no id repeats.
    fn collect_candidates(&self, guild_id: u64) -> (cands: Vec<RankEntry>)
        requires
            self@.wf(),
        ensures
            cands@.len() == count_eligible(self@.users, self@, guild_id),
            forall|t: int|
                0 <= t < cands@.len() ==> entry_corresponds(self@, guild_id, #[trigger] cands@[t]),
            forall|t: int|
                0 <= t < cands@.len() ==> entry_counted(self@, guild_id, #[trigger] cands@[t]),
            distinct_entry_ids(cands@),
            forall|j: int|
                0 <= j < self@.users.len() && eligible_author(
                    self@,
                    guild_id,
                    #[trigger] self@.users[j],
                ) ==> exists|t: int| 0 <= t < cands@.len() && (#[trigger] cands@[t]).id
                    == self@.users[j].id,
    {
        let mut cands: Vec<RankEntry> = Vec::new();
        let mut k: usize = 0;
        proof {
            reveal(count_eligible);
            assert(count_eligible(self@.users.take(0), self@, guild_id) == 0);
        }
        while k < self.users_len()
            invariant
                self@.wf(),
                0 <= k <= self@.users.len(),
                cands@.len() == count_eligible(self@.users.take(k as int), self@, guild_id),
                forall|t: int|
                    0 <= t < cands@.len() ==> entry_corresponds(
                        self@,
                        guild_id,
                        #[trigger] cands@[t],
                    ),
                forall|t: int|
                    0 <= t < cands@.len() ==> entry_counted(self@, guild_id, #[trigger] cands@[t]),
                forall|t: int|
                    0 <= t < cands@.len() ==> entry_id_from_prefix(
                        self@,
                        k as int,
                        #[trigger] cands@[t],
                    ),
                distinct_entry_ids(cands@),
                forall|j: int|
                    0 <= j < k && eligible_author(self@, guild_id, #[trigger] self@.users[j])
                        ==> exists|t: int| 0 <= t < cands@.len() && (#[trigger] cands@[t]).id
                        == self@.users[j].id,
            decreases self@.users.len() - k,
        {
            proof {
                reveal(count_eligible);
                assert(self@.users.take(k + 1 as int).drop_last() =~= self@.users.take(k as int));
                assert(self@.users.take(k + 1 as int).last() == self@.users[k as int]);
            }
            let ghost before = cands@;
            let mut pushed = false;
            let u = self.user_at(k);
            if !u.bot {
                let c = self.count_authored_in(guild_id, u.id);
                if c >= 1 {
                    pushed = true;
                    proof {
                        assert(eligible_author(self@, guild_id, self@.users[k as int]));
                        assert forall|t: int| 0 <= t < cands@.len() implies (
                        #[trigger] cands@[t]).id != self@.users[k as int].id by {
                            let j = choose|j: int|
                                0 <= j < k && (#[trigger] self@.users[j]).id == cands@[t].id;
                            assert(self@.users[j].id != self@.users[k as int].id);
                        };
                    }
                    let entry = RankEntry { id: u.id, name: u.name.clone(), count: c };
                    cands.push(entry);
                    proof {
                        assert(cands@[before.len() as int].id == self@.users[k as int].id
                            && cands@[before.len() as int].name == self@.users[k as int].name);
                        assert(entry_corresponds(self@, guild_id, cands@[before.len() as int]));
                        assert(entry_counted(self@, guild_id, cands@[before.len() as int]));
                    }
                } else {
                    proof {
                        assert(!eligible_author(self@, guild_id, self@.users[k as int]));
                    }
                }
            } else {
                proof {
                    assert(!eligible_author(self@, guild_id, self@.users[k as int]));
                }
            }
            proof {
                assert forall|t: int| 0 <= t < cands@.len() implies entry_id_from_prefix(
                    self@,
                    k + 1 as int,
                    #[trigger] cands@[t],
                ) by {
                    if t < before.len() {
                        assert(cands@[t] == before[t]);
                        assert(entry_id_from_prefix(self@, k as int, before[t]));
                        let j = choose|j: int|
                            0 <= j < k && (#[trigger] self@.users[j]).id == before[t].id;
                        assert(0 <= j < k + 1 && self@.users[j].id == cands@[t].id);
                    } else {
                        assert(self@.users[k as int].id == cands@[t].id);
                    }
                };
                assert forall|j: int|
                    0 <= j < k + 1 && eligible_author(
                        self@,
                        guild_id,
                        #[trigger] self@.users[j],
                    ) implies exists|t: int|
                    0 <= t < cands@.len() && (#[trigger] cands@[t]).id == self@.users[j].id by {
                    if j < k {
                        let t0 = choose|t: int|
                            0 <= t < before.len() && (#[trigger] before[t]).id
                                == self@.users[j].id;
                        assert(cands@[t0] == before[t0]);
                        assert(cands@[t0].id == self@.users[j].id);
                    } else {
                        assert(pushed);
                        assert(cands@[before.len() as int].id == self@.users[j].id);
                    }
                };
            }
            k += 1;
        }
        proof {
            assert(self@.users.take(self@.users.len() as int) =~= self@.users);
        }
        cands
    }

    /// The up-to-`n_most_active_users` most active non-bot authors of the
    /// guild, strictly ordered: more authored messages first, ties broken
    /// by ascending id.  Every eligible author left out ranks below every
    /// returned one.
    #[verifier::rlimit(100)]
    #[verifier::spinoff_prover]
    pub fn get_most_active_users_with_emoji(&self, guild_id: u64, n_most_active_users: u32) -> (r:
        Vec<UserWithEmoji>)
        requires
            self@.wf(),
        ensures
            r@.len() == if n_most_active_users as int <= count_eligible(
                self@.users,
                self@,
                guild_id,
            ) {
                n_most_active_users as int
            } else {
                count_eligible(self@.users, self@, guild_id) as int
            },
            forall|i: int|
                0 <= i < r@.len() ==> ranked_row_matches_user(self@, guild_id, #[trigger] r@[i]),
            forall|i: int, j: int|
                0 <= i < j < r@.len() ==> ranked_before(
                    self@,
                    guild_id,
                    (#[trigger] r@[i]).id,
                    (#[trigger] r@[j]).id,
                ),
            forall|j: int, t: int|
                0 <= j < self@.users.len() && 0 <= t < r@.len() && eligible_author(
                    self@,
                    guild_id,
                    #[trigger] self@.users[j],
                ) && !ranking_has(r@, self@.users[j].id) ==> ranked_before(
                    self@,
                    guild_id,
                    (#[trigger] r@[t]).id,
                    self@.users[j].id,
                ),
    {
        let cands: Vec<RankEntry> = self.collect_candidates(guild_id);
        let ghost c0 = cands@;
        let s: Vec<RankEntry> = sort_ranking(cands);
        proof {
            assert forall|t: int| 0 <= t < s@.len() implies entry_corresponds(
                self@,
                guild_id,
                #[trigger] s@[t],
            ) && entry_counted(self@, guild_id, s@[t]) by {
                assert(entry_in(c0, s@[t]));
                let x = choose|x: int| 0 <= x < c0.len() && #[trigger] c0[x] == s@[t];
                assert(entry_corresponds(self@, guild_id, c0[x]));
                assert(entry_counted(self@, guild_id, c0[x]));
            };
            assert forall|j: int|
                0 <= j < self@.users.len() && eligible_author(
                    self@,
                    guild_id,
                    #[trigger] self@.users[j],
                ) implies exists|t: int| 0 <= t < s@.len() && (#[trigger] s@[t]).id
                == self@.users[j].id by {
                let t0 = choose|t: int|
                    0 <= t < c0.len() && (#[trigger] c0[t]).id == self@.users[j].id;
                assert(entry_in(s@, c0[t0]));
                let t1 = choose|t: int| 0 <= t < s@.len() && #[trigger] s@[t] == c0[t0];
                assert(s@[t1].id == self@.users[j].id);
            };
        }
        // Keep the top of the order, up to the requested count.
        let count: usize = if (n_most_active_users as usize) < s.len() {
            n_most_active_users as usize
        } else {
            s.len()
        };
        let mut out: Vec<UserWithEmoji> = Vec::new();
        let mut t: usize = 0;
        while t < count
            invariant
                count <= s@.len(),
                0 <= t <= count,
                out@.len() == t,
                forall|x: int|
                    0 <= x < t ==> (#[trigger] out@[x]).id == s@[x].id && out@[x].name
                        == s@[x].name,
                sorted_entries(s@),
                s@.len() == count_eligible(self@.users, self@, guild_id),
                forall|x: int|
                    0 <= x < s@.len() ==> entry_corresponds(self@, guild_id, #[trigger] s@[x])
                        && entry_counted(self@, guild_id, s@[x]),
                forall|j: int|
                    0 <= j < self@.users.len() && eligible_author(
                        self@,
                        guild_id,
                        #[trigger] self@.users[j],
                    ) ==> exists|x: int| 0 <= x < s@.len() && (#[trigger] s@[x]).id
                        == self@.users[j].id,
            decreases count - t,
        {
            let e = &s[t];
            out.push(UserWithEmoji { id: e.id, name: e.name.clone() });
            t += 1;
        }
        proof {
            // A kept row corresponds to an eligible stored user.
            assert forall|i: int| 0 <= i < out@.len() implies ranked_row_matches_user(
                self@,
                guild_id,
                #[trigger] out@[i],
            ) by {
                assert(entry_corresponds(self@, guild_id, s@[i]));
                let j = choose|j: int|
                    0 <= j < self@.users.len() && (#[trigger] self@.users[j]).id == s@[i].id
                        && self@.users[j].name == s@[i].name && eligible_author(
                        self@,
                        guild_id,
                        self@.users[j],
                    );
                assert(self@.users[j].id == out@[i].id && self@.users[j].name == out@[i].name);
            };
            // The order on kept rows translates to the ranking order.
            assert forall|i: int, j: int| 0 <= i < j < out@.len() implies ranked_before(
                self@,
                guild_id,
                (#[trigger] out@[i]).id,
                (#[trigger] out@[j]).id,
            ) by {
                assert(entry_before(s@[i], s@[j]));
                assert(entry_counted(self@, guild_id, s@[i]));
                assert(entry_counted(self@, guild_id, s@[j]));
            };
            // An eligible author that was left out sits past the cut, so
            // everything kept ranks before it.
            assert forall|j: int, t2: int|
                0 <= j < self@.users.len() && 0 <= t2 < out@.len() && eligible_author(
                    self@,
                    guild_id,
                    #[trigger] self@.users[j],
                ) && !ranking_has(out@, self@.users[j].id) implies ranked_before(
                self@,
                guild_id,
                (#[trigger] out@[t2]).id,
                self@.users[j].id,
            ) by {
                let x = choose|x: int|
                    0 <= x < s@.len() && (#[trigger] s@[x]).id == self@.users[j].id;
                if x < out@.len() {
                    assert(out@[x].id == s@[x].id);
                    assert(ranking_has(out@, self@.users[j].id));
                } else {
                    assert(entry_before(s@[t2], s@[x]));
                    assert(entry_counted(self@, guild_id, s@[t2]));
                    assert(entry_counted(self@, guild_id, s@[x]));
                }
            };
        }
        out
    }
}

/// Assemble the strictly ordered ranking from the unsorted candidate rows:
/// the same rows, ordered by `entry_before`.
/// Assemble the strictly ordered ranking from the unsorted candidate
/// rows: the same rows, ordered by `entry_before`.
#[verifier::rlimit(100)]
#[verifier::spinoff_prover]
fn sort_ranking(cands: Vec<RankEntry>) -> (s: Vec<RankEntry>)
    requires
        distinct_entry_ids(cands@),
    ensures
        s@.len() == cands@.len(),
        sorted_entries(s@),
        forall|t: int| 0 <= t < s@.len() ==> entry_in(cands@, #[trigger] s@[t]),
        forall|x: int| 0 <= x < cands@.len() ==> entry_in(s@, #[trigger] cands@[x]),
{
    let mut s: Vec<RankEntry> = Vec::new();
    let mut k: usize = 0;
    while k < cands.len()
        invariant
            0 <= k <= cands@.len(),
            distinct_entry_ids(cands@),
            s@.len() == k,
            sorted_entries(s@),
            forall|t: int| 0 <= t < s@.len() ==> entry_in(cands@, #[trigger] s@[t]),
            forall|t: int|
                0 <= t < s@.len() ==> entry_id_in_prefix(cands@, k as int, #[trigger] s@[t]),
            forall|x: int| 0 <= x < k ==> entry_in(s@, #[trigger] cands@[x]),
        decreases cands@.len() - k,
    {
        proof {
            assert forall|t: int| 0 <= t < s@.len() implies (#[trigger] s@[t]).id != cands@[k
                as int].id by {
                let x = choose|x: int| 0 <= x < k && (#[trigger] cands@[x]).id == s@[t].id;
                assert(cands@[x].id != cands@[k as int].id);
            };
        }
        let ghost s_before = s@;
        let e = cands[k].clone();
        proof {
            assert(e == cands@[k as int]);
        }
        insert_ranked(&mut s, e);
        proof {
            assert forall|t: int| 0 <= t < s@.len() implies entry_in(cands@, #[trigger] s@[t])
                && entry_id_in_prefix(cands@, k + 1 as int, s@[t]) by {
                if s@[t] == e {
                    assert(cands@[k as int] == s@[t]);
                    assert(cands@[k as int].id == s@[t].id);
                } else {
                    let x0 = choose|x: int| 0 <= x < s_before.len() && #[trigger] s_before[x]
                        == s@[t];
                    assert(entry_in(cands@, s_before[x0]));
                    assert(entry_id_in_prefix(cands@, k as int, s_before[x0]));
                    let x1 = choose|x: int| 0 <= x < k && (#[trigger] cands@[x]).id
                        == s_before[x0].id;
                    assert(0 <= x1 < k + 1 && cands@[x1].id == s@[t].id);
                }
            };
            assert forall|x: int| 0 <= x < k + 1 implies entry_in(s@, #[trigger] cands@[x]) by {
                if x < k {
                    let t0 = choose|t: int| 0 <= t < s_before.len() && #[trigger] s_before[t]
                        == cands@[x];
                    let t1 = choose|t: int| 0 <= t < s@.len() && #[trigger] s@[t]
                        == s_before[t0];
                    assert(s@[t1] == cands@[x]);
                } else {
                    let t1 = choose|t: int| 0 <= t < s@.len() && #[trigger] s@[t] == e;
                    assert(s@[t1] == cands@[x]);
                }
            };
        }
        k += 1;
    }
    s
}

} // verus!
