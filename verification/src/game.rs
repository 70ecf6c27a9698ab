//! The game orchestrator: one round of quote trivia, composed from the
//! ranked candidate authors and a sample of their quotes.

use vstd::prelude::*;

use crate::database::Database;
use crate::entities::{Message, UserWithEmoji};
use crate::error::DatabaseError;
use crate::ranking::{
    count_eligible, eligible_author, ranked_before, ranked_row_matches_user, ranking_has,
};
use crate::sampling::{qualifies, qualifying};

verus! {

/// An immutable round: the sampled quotes and the ranked candidate
/// authors the answers are chosen from.
pub struct Game {
    quotes: Vec<Message>,
    users: Vec<UserWithEmoji>,
}

/// The ids of the ranked candidate authors, in rank order.
pub open spec fn ids_of(users: Seq<UserWithEmoji>) -> Seq<u64> {
    users.map(|i: int, u: UserWithEmoji| u.id)
}

impl Game {
    /// The sampled quotes, as the round's mathematical content.
    pub closed spec fn quotes_view(&self) -> Seq<Message> {
        self.quotes@
    }

    /// The ranked candidate authors, as the round's mathematical content.
    pub closed spec fn users_view(&self) -> Seq<UserWithEmoji> {
        self.users@
    }

    /// Build a round: rank the guild's most active authors, then sample
    /// quotes restricted to exactly those authors, so the ranked ids are
    /// exactly the sampling eligibility set.  Zero questions or zero
    /// candidate authors is reported as the caller-correctable invalid
    /// parameter case; an empty ranking or an empty sample, by contrast,
    /// degrades to a short or empty round without error.  The round is
    /// immutable once built.
    pub fn new(
        database: &Database,
        guild_id: u64,
        n_questions: u32,
        minimum_quote_length: u32,
        n_most_active_users: u32,
        seed: u64,
    ) -> (r: Result<Game, DatabaseError>)
        requires
            database@.wf(),
        ensures
            r is Err <==> n_questions == 0 || n_most_active_users == 0,
            r is Err ==> r == Err::<Game, DatabaseError>(DatabaseError::InvalidInput),
            r matches Ok(g) ==> {
                &&& g.users_view().len() == (if n_most_active_users as int <= count_eligible(
                    database@.users,
                    database@,
                    guild_id,
                ) {
                    n_most_active_users as int
                } else {
                    count_eligible(database@.users, database@, guild_id) as int
                })
                &&& g.quotes_view().len() == (if n_questions as int <= qualifying(
                    database@.messages,
                    database@,
                    guild_id,
                    minimum_quote_length,
                    ids_of(g.users_view()),
                ).len() {
                    n_questions as int
                } else {
                    qualifying(
                        database@.messages,
                        database@,
                        guild_id,
                        minimum_quote_length,
                        ids_of(g.users_view()),
                    ).len() as int
                })
                &&& forall|j: int, t: int|
                    0 <= j < database@.users.len() && 0 <= t < g.users_view().len()
                        && eligible_author(database@, guild_id, #[trigger] database@.users[j])
                        && !ranking_has(g.users_view(), database@.users[j].id) ==> ranked_before(
                        database@,
                        guild_id,
                        (#[trigger] g.users_view()[t]).id,
                        database@.users[j].id,
                    )
                &&& forall|i: int|
                    0 <= i < g.users_view().len() ==> ranked_row_matches_user(
                        database@,
                        guild_id,
                        #[trigger] g.users_view()[i],
                    )
                &&& forall|i: int, j: int|
                    0 <= i < j < g.users_view().len() ==> ranked_before(
                        database@,
                        guild_id,
                        (#[trigger] g.users_view()[i]).id,
                        (#[trigger] g.users_view()[j]).id,
                    )
                &&& forall|i: int|
                    0 <= i < g.quotes_view().len() ==> qualifies(
                        database@,
                        guild_id,
                        minimum_quote_length,
                        ids_of(g.users_view()),
                        #[trigger] g.quotes_view()[i],
                    )
                &&& forall|i: int, j: int|
                    0 <= i < j < g.quotes_view().len() ==> g.quotes_view()[i].id != g.quotes_view()[j].id
            },
    {
        if n_questions == 0 || n_most_active_users == 0 {
            return Err(DatabaseError::InvalidInput);
        }
        let users = database.get_most_active_users_with_emoji(guild_id, n_most_active_users);
        let mut users_ids: Vec<u64> = Vec::new();
        let mut k: usize = 0;
        while k < users.len()
            invariant
                0 <= k <= users@.len(),
                users_ids@.len() == k,
                forall|i: int| 0 <= i < k ==> users_ids@[i] == ids_of(users@)[i],
            decreases users@.len() - k,
        {
            users_ids.push(users[k].id);
            k += 1;
        }
        proof {
            assert(users_ids@ =~= ids_of(users@));
        }
        let quotes = database.get_random_messages(
            guild_id,
            n_questions,
            minimum_quote_length,
            &users_ids,
            seed,
        );
        Ok(Game { quotes, users })
    }

    /// The sampled quotes of the round.
    pub fn messages(&self) -> (r: &Vec<Message>)
        ensures
            r@ == self.quotes_view(),
    {
        &self.quotes
    }

    /// The ranked candidate authors of the round.
    pub fn users(&self) -> (r: &Vec<UserWithEmoji>)
        ensures
            r@ == self.users_view(),
    {
        &self.users
    }
}

} // verus!
