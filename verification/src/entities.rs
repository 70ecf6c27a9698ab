//! The mirrored entities: guilds, users, channels, messages and per-user
//! emoji, exactly the fields the store persists.
//!
//! All primary keys are assigned by the remote platform and are monotonically
//! increasing with creation time; the synchronization engine relies on this
//! to use message ids as pagination cursors.

use vstd::prelude::*;

verus! {

/// A mirrored guild record.
#[derive(Debug, PartialEq)]
pub struct Guild {
    pub id: u64,
    pub name: String,
    pub owner_id: u64,
}

/// A mirrored user record.
#[derive(Debug, PartialEq)]
pub struct User {
    pub id: u64,
    pub name: String,
    pub discriminator: Option<u32>,
    pub global_name: Option<String>,
    pub bot: bool,
}

/// A mirrored channel record.  `backfill_done` is the only persisted
/// synchronization-progress flag; the cursors themselves are always derived
/// from the stored messages.
#[derive(Debug, PartialEq)]
pub struct Channel {
    pub id: u64,
    pub name: String,
    pub guild_id: u64,
    pub last_message_id: Option<u64>,
    pub backfill_done: bool,
}

/// A mirrored message record.  `author_id` is `None` when the author was not
/// a known guild member at scrape time (for example a departed member), so
/// that storing the message never violates referential integrity.
#[derive(Debug, PartialEq)]
pub struct Message {
    pub id: u64,
    pub channel_id: u64,
    pub author_id: Option<u64>,
    pub content: String,
    pub timestamp: i64,
}

/// A message as the remote platform reports it: the author is always
/// present; membership at scrape time decides whether it is kept.
#[derive(Debug, PartialEq)]
pub struct RemoteMessage {
    pub id: u64,
    pub channel_id: u64,
    pub author_id: u64,
    pub content: String,
    pub timestamp: i64,
}

/// One user's chosen emoji in one guild; keyed by the (user, guild) pair,
/// and the only record whose value an upsert overwrites.
#[derive(Debug, PartialEq)]
pub struct UserEmoji {
    pub user_id: u64,
    pub guild_id: u64,
    pub emoji: String,
}

/// A ranked author as the activity query reports it.
#[derive(Debug, PartialEq)]
pub struct UserWithEmoji {
    pub id: u64,
    pub name: String,
}

impl Clone for Guild {
    fn clone(&self) -> (r: Self)
        ensures
            r == *self,
    {
        Guild { id: self.id, name: self.name.clone(), owner_id: self.owner_id }
    }
}

impl Clone for User {
    fn clone(&self) -> (r: Self)
        ensures
            r == *self,
    {
        User {
            id: self.id,
            name: self.name.clone(),
            discriminator: self.discriminator,
            global_name: match &self.global_name {
                Some(s) => Some(s.clone()),
                None => None,
            },
            bot: self.bot,
        }
    }
}

impl Clone for Channel {
    fn clone(&self) -> (r: Self)
        ensures
            r == *self,
    {
        Channel {
            id: self.id,
            name: self.name.clone(),
            guild_id: self.guild_id,
            last_message_id: self.last_message_id,
            backfill_done: self.backfill_done,
        }
    }
}

impl Clone for Message {
    fn clone(&self) -> (r: Self)
        ensures
            r == *self,
    {
        Message {
            id: self.id,
            channel_id: self.channel_id,
            author_id: self.author_id,
            content: self.content.clone(),
            timestamp: self.timestamp,
        }
    }
}

impl Clone for RemoteMessage {
    fn clone(&self) -> (r: Self)
        ensures
            r == *self,
    {
        RemoteMessage {
            id: self.id,
            channel_id: self.channel_id,
            author_id: self.author_id,
            content: self.content.clone(),
            timestamp: self.timestamp,
        }
    }
}

impl Clone for UserEmoji {
    fn clone(&self) -> (r: Self)
        ensures
            r == *self,
    {
        UserEmoji { user_id: self.user_id, guild_id: self.guild_id, emoji: self.emoji.clone() }
    }
}

impl Clone for UserWithEmoji {
    fn clone(&self) -> (r: Self)
        ensures
            r == *self,
    {
        UserWithEmoji { id: self.id, name: self.name.clone() }
    }
}

} // verus!
