//! The quote sampling engine: a filtered, seed-driven random selection
//! over the mirrored corpus.
//!
//! A quote qualifies when its channel belongs to the requested guild, its
//! content is long enough, and its author is one of the eligible authors.
//! Selection permutes the qualifying rows with a generator seeded by the
//! caller and truncates to the requested count, so fewer rows than asked
//! for come back, without error, exactly when fewer qualify.  No
//! distribution is promised across calls; callers pass a fresh seed each
//! time.

use vstd::prelude::*;
use vstd::string::StrSliceExecFns;

use crate::database::{Database, DbView};
use crate::entities::Message;

verus! {

/// The sampling predicate: the message sits in a channel of the guild, is
/// at least `min_len` characters long, and was authored by an eligible,
/// known author.
pub open spec fn qualifies(
    v: DbView,
    guild_id: u64,
    min_len: u32,
    authors: Seq<u64>,
    m: Message,
) -> bool {
    &&& exists|i: int|
        0 <= i < v.channels.len() && (#[trigger] v.channels[i]).id == m.channel_id
            && v.channels[i].guild_id == guild_id
    &&& m.content@.len() >= min_len
    &&& (m.author_id matches Some(a) && authors.contains(a))
}

/// The subsequence of `msgs` that qualifies, in stored order.
pub open spec fn qualifying(
    msgs: Seq<Message>,
    v: DbView,
    guild_id: u64,
    min_len: u32,
    authors: Seq<u64>,
) -> Seq<Message>
    decreases msgs.len(),
{
    if msgs.len() == 0 {
        msgs
    } else {
        let rest = qualifying(msgs.drop_last(), v, guild_id, min_len, authors);
        if qualifies(v, guild_id, min_len, authors, msgs.last()) {
            rest.push(msgs.last())
        } else {
            rest
        }
    }
}

impl Database {
    /// Whether the stored channel with this id belongs to this guild.
    pub(crate) fn channel_in_guild(&self, channel_id: u64, guild_id: u64) -> (r: bool)
        requires
            self@.wf(),
        ensures
            r == exists|i: int|
                0 <= i < self@.channels.len() && (#[trigger] self@.channels[i]).id == channel_id
                    && self@.channels[i].guild_id == guild_id,
    {
        let mut k: usize = 0;
        while k < self.channels_len()
            invariant
                self@.wf(),
                0 <= k <= self@.channels.len(),
                forall|i: int| 0 <= i < k ==> self@.channels[i].id != channel_id,
            decreases self@.channels.len() - k,
        {
            let c = self.channel_at(k);
            if c.id == channel_id {
                let matches_guild = c.guild_id == guild_id;
                proof {
                    assert(self@.channels[k as int].id == channel_id);
                    if !matches_guild {
                        assert forall|i: int|
                            0 <= i < self@.channels.len() && (#[trigger] self@.channels[i]).id
                                == channel_id implies self@.channels[i].guild_id != guild_id by {
                            if i != k as int {
                                assert(self@.channels[i].id != self@.channels[k as int].id);
                            }
                        };
                    }
                }
                return matches_guild;
            }
            k += 1;
        }
        false
    }

    /// Whether this id is one of the eligible author ids.
    fn author_eligible(users_ids: &Vec<u64>, a: u64) -> (r: bool)
        ensures
            r == users_ids@.contains(a),
    {
        let mut k: usize = 0;
        while k < users_ids.len()
            invariant
                0 <= k <= users_ids.len(),
                forall|i: int| 0 <= i < k ==> users_ids@[i] != a,
            decreases users_ids.len() - k,
        {
            if users_ids[k] == a {
                proof {
                    assert(users_ids@[k as int] == a);
                }
                return true;
            }
            k += 1;
        }
        false
    }

    /// Whether this message satisfies the sampling predicate.
    fn message_qualifies(
        &self,
        guild_id: u64,
        minimum_length: u32,
        users_ids: &Vec<u64>,
        m: &Message,
    ) -> (r: bool)
        requires
            self@.wf(),
        ensures
            r == qualifies(self@, guild_id, minimum_length, users_ids@, *m),
    {
        if !self.channel_in_guild(m.channel_id, guild_id) {
            return false;
        }
        if m.content.as_str().unicode_len() < minimum_length as usize {
            return false;
        }
        match m.author_id {
            Some(a) => Self::author_eligible(users_ids, a),
            None => false,
        }
    }

    /// Sample up to `n_messages` quotes of the guild, each at least
    /// `minimum_length` characters long and authored by one of `users_ids`.
    /// The result is a seed-driven selection from the qualifying rows:
    /// every returned quote qualifies and is stored, no id repeats, and
    /// the count is the requested one whenever enough rows qualify.
    pub fn get_random_messages(
        &self,
        guild_id: u64,
        n_messages: u32,
        minimum_length: u32,
        users_ids: &Vec<u64>,
        seed: u64,
    ) -> (r: Vec<Message>)
        requires
            self@.wf(),
        ensures
            r@.len() == if n_messages as int <= qualifying(
                self@.messages,
                self@,
                guild_id,
                minimum_length,
                users_ids@,
            ).len() {
                n_messages as int
            } else {
                qualifying(self@.messages, self@, guild_id, minimum_length, users_ids@).len() as int
            },
            forall|i: int|
                0 <= i < r@.len() ==> qualifies(
                    self@,
                    guild_id,
                    minimum_length,
                    users_ids@,
                    #[trigger] r@[i],
                ),
            forall|i: int|
                0 <= i < r@.len() ==> exists|j: int|
                    0 <= j < self@.messages.len() && self@.messages[j] == #[trigger] r@[i],
            forall|i: int, j: int| 0 <= i < j < r@.len() ==> r@[i].id != r@[j].id,
    {
        let ghost pred_guild = guild_id;
        let mut q: Vec<Message> = Vec::new();
        let mut k: usize = 0;
        while k < self.messages_len()
            invariant
                self@.wf(),
                0 <= k <= self@.messages.len(),
                q@ == qualifying(
                    self@.messages.take(k as int),
                    self@,
                    guild_id,
                    minimum_length,
                    users_ids@,
                ),
                forall|i: int|
                    0 <= i < q@.len() ==> qualifies(
                        self@,
                        guild_id,
                        minimum_length,
                        users_ids@,
                        #[trigger] q@[i],
                    ),
                forall|i: int|
                    0 <= i < q@.len() ==> exists|j: int|
                        0 <= j < k && self@.messages[j] == #[trigger] q@[i],
                forall|i: int, j: int| 0 <= i < j < q@.len() ==> q@[i].id != q@[j].id,
            decreases self@.messages.len() - k,
        {
            proof {
                assert(self@.messages.take(k + 1 as int).drop_last() =~= self@.messages.take(
                    k as int,
                ));
                assert(self@.messages.take(k + 1 as int).last() == self@.messages[k as int]);
            }
            if self.message_qualifies(guild_id, minimum_length, users_ids, self.message_at(k)) {
                proof {
                    assert forall|i: int| 0 <= i < q@.len() implies q@[i].id != self@.messages[k
                        as int].id by {
                        let j = choose|j: int| 0 <= j < k && self@.messages[j] == q@[i];
                        assert(self@.messages[j].id != self@.messages[k as int].id);
                    };
                }
                let m = self.message_at(k).clone();
                q.push(m);
                proof {
                    assert(q@[q@.len() - 1] == self@.messages[k as int]);
                }
            }
            k += 1;
        }
        proof {
            assert(self@.messages.take(self@.messages.len() as int) =~= self@.messages);
        }
        // Permute the qualifying rows, driven by the seed.
        let ghost total = q@.len();
        let mut state: u64 = seed;
        let mut i: usize = q.len();
        while i > 1
            invariant
                self@.wf(),
                i <= q@.len(),
                q@.len() == total,
                forall|t: int|
                    0 <= t < q@.len() ==> qualifies(
                        self@,
                        guild_id,
                        minimum_length,
                        users_ids@,
                        #[trigger] q@[t],
                    ),
                forall|t: int|
                    0 <= t < q@.len() ==> exists|j: int|
                        0 <= j < self@.messages.len() && self@.messages[j] == #[trigger] q@[t],
                forall|t: int, u: int| 0 <= t < u < q@.len() ==> q@[t].id != q@[u].id,
            decreases i,
        {
            let wide: u128 = (state as u128) * 6364136223846793005u128 + 1442695040888963407u128;
            state = (wide % 0x1_0000_0000_0000_0000u128) as u64;
            let j: usize = (state % (i as u64)) as usize;
            i -= 1;
            let ghost before = q@;
            let a = q[i].clone();
            let b = q[j].clone();
            q.set(i, b);
            q.set(j, a);
            proof {
                assert forall|t: int| 0 <= t < q@.len() implies qualifies(
                    self@,
                    guild_id,
                    minimum_length,
                    users_ids@,
                    #[trigger] q@[t],
                ) by {
                    if t == j as int {
                        assert(q@[t] == before[i as int]);
                    } else if t == i as int {
                        assert(q@[t] == before[j as int]);
                    } else {
                        assert(q@[t] == before[t]);
                    }
                };
                assert forall|t: int| 0 <= t < q@.len() implies exists|jj: int|
                    0 <= jj < self@.messages.len() && self@.messages[jj] == #[trigger] q@[t] by {
                    if t == j as int {
                        assert(q@[t] == before[i as int]);
                    } else if t == i as int {
                        assert(q@[t] == before[j as int]);
                    } else {
                        assert(q@[t] == before[t]);
                    }
                };
                assert forall|t: int, u: int| 0 <= t < u < q@.len() implies q@[t].id
                    != q@[u].id by {
                    let ti = if t == j as int {
                        i as int
                    } else if t == i as int {
                        j as int
                    } else {
                        t
                    };
                    let ui = if u == j as int {
                        i as int
                    } else if u == i as int {
                        j as int
                    } else {
                        u
                    };
                    assert(q@[t] == before[ti]);
                    assert(q@[u] == before[ui]);
                    if ti < ui {
                        assert(before[ti].id != before[ui].id);
                    } else {
                        assert(before[ui].id != before[ti].id);
                    }
                };
            }
        }
        // Truncate to the requested count.
        let count: usize = if (n_messages as usize) < q.len() {
            n_messages as usize
        } else {
            q.len()
        };
        let mut out: Vec<Message> = Vec::new();
        let mut t: usize = 0;
        while t < count
            invariant
                count <= q@.len(),
                0 <= t <= count,
                out@.len() == t,
                forall|x: int| 0 <= x < t ==> out@[x] == q@[x],
                self@.wf(),
                q@.len() == total,
                forall|x: int|
                    0 <= x < q@.len() ==> qualifies(
                        self@,
                        guild_id,
                        minimum_length,
                        users_ids@,
                        #[trigger] q@[x],
                    ),
                forall|x: int|
                    0 <= x < q@.len() ==> exists|j: int|
                        0 <= j < self@.messages.len() && self@.messages[j] == #[trigger] q@[x],
                forall|x: int, y: int| 0 <= x < y < q@.len() ==> q@[x].id != q@[y].id,
            decreases count - t,
        {
            out.push(q[t].clone());
            t += 1;
        }
        out
    }
}

} // verus!
