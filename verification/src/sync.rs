//! The channel synchronization engine: backward backfill followed by
//! forward catch-up, against a remote history handed in as plain data.
//!
//! The remote platform hands out id-ordered pages relative to a cursor;
//! ids are assigned remotely and grow with creation time.  Both phases
//! derive their cursor from the stored messages (the oldest stored id for
//! backfill, the newest for catch-up), persist each fetched page through
//! the conflict-ignoring upsert, and stop on the first empty page, so a
//! crash between fetch and persist is safe to retry from the persisted
//! state.

use vstd::prelude::*;

use crate::database::{
    lemma_upsert_messages_have, lemma_upsert_messages_noop, lemma_upsert_messages_structure,
    message_batch_ok, message_batch_row_new, upsert_messages, Database, DbView,
};
use crate::entities::{Channel, Message, RemoteMessage};
use crate::error::DatabaseError;

verus! {

/// What the remote message becomes in the store: the author is kept only
/// when it is a known member at scrape time, otherwise it is nulled so the
/// write cannot dangle.
pub open spec fn map_message_spec(m: RemoteMessage, members: Seq<u64>) -> Message {
    Message {
        id: m.id,
        channel_id: m.channel_id,
        author_id: if members.contains(m.author_id) {
            Some(m.author_id)
        } else {
            None
        },
        content: m.content,
        timestamp: m.timestamp,
    }
}

/// `id` lies strictly below the cursor; no cursor admits every id.
pub open spec fn id_lt(id: u64, b: Option<u64>) -> bool {
    match b {
        Some(v) => id < v,
        None => true,
    }
}

/// `id` lies strictly above the cursor; no cursor admits every id.
pub open spec fn id_gt(id: u64, b: Option<u64>) -> bool {
    match b {
        Some(v) => id > v,
        None => true,
    }
}

/// How many remote messages lie strictly below the cursor.
#[verifier::opaque]
pub open spec fn count_lt(h: Seq<RemoteMessage>, b: Option<u64>) -> nat
    decreases h.len(),
{
    if h.len() == 0 {
        0
    } else {
        count_lt(h.drop_last(), b) + (if id_lt(h.last().id, b) {
            1nat
        } else {
            0nat
        })
    }
}

/// How many remote messages lie strictly above the cursor.
#[verifier::opaque]
pub open spec fn count_gt(h: Seq<RemoteMessage>, b: Option<u64>) -> nat
    decreases h.len(),
{
    if h.len() == 0 {
        0
    } else {
        count_gt(h.drop_last(), b) + (if id_gt(h.last().id, b) {
            1nat
        } else {
            0nat
        })
    }
}

/// Some remote message carries this id.
pub open spec fn remote_has_id(h: Seq<RemoteMessage>, id: u64) -> bool {
    exists|x: int| 0 <= x < h.len() && (#[trigger] h[x]).id == id
}

/// No two remote messages share an id.
pub open spec fn distinct_remote_ids(h: Seq<RemoteMessage>) -> bool {
    forall|x: int, y: int| 0 <= x < y < h.len() ==> (#[trigger] h[x]).id != (#[trigger] h[y]).id
}

/// Every remote message belongs to this channel.
pub open spec fn history_for_channel(h: Seq<RemoteMessage>, cid: u64) -> bool {
    forall|x: int| 0 <= x < h.len() ==> (#[trigger] h[x]).channel_id == cid
}

/// Cursors that admit the same ids count the same messages.
proof fn lemma_count_lt_congruent(h: Seq<RemoteMessage>, b1: Option<u64>, b2: Option<u64>)
    requires
        forall|x: int| 0 <= x < h.len() ==> (id_lt((#[trigger] h[x]).id, b1) <==> id_lt(h[x].id, b2)),
    ensures
        count_lt(h, b1) == count_lt(h, b2),
    decreases h.len(),
{
    reveal(count_lt);
    if h.len() > 0 {
        lemma_count_lt_congruent(h.drop_last(), b1, b2);
    }
}

/// A cursor that admits no id counts nothing.
proof fn lemma_count_lt_zero(h: Seq<RemoteMessage>, b: Option<u64>)
    requires
        forall|x: int| 0 <= x < h.len() ==> !id_lt((#[trigger] h[x]).id, b),
    ensures
        count_lt(h, b) == 0,
    decreases h.len(),
{
    reveal(count_lt);
    if h.len() > 0 {
        lemma_count_lt_zero(h.drop_last(), b);
    }
}

/// With no cursor every message counts.
proof fn lemma_count_lt_all(h: Seq<RemoteMessage>)
    ensures
        count_lt(h, None) == h.len(),
    decreases h.len(),
{
    reveal(count_lt);
    if h.len() > 0 {
        lemma_count_lt_all(h.drop_last());
    }
}

/// A cursor never counts more messages than there are.
proof fn lemma_count_lt_le_len(h: Seq<RemoteMessage>, b: Option<u64>)
    ensures
        count_lt(h, b) <= h.len(),
    decreases h.len(),
{
    reveal(count_lt);
    if h.len() > 0 {
        lemma_count_lt_le_len(h.drop_last(), b);
    }
}

/// A cursor never counts more messages than there are.
proof fn lemma_count_gt_le_len(h: Seq<RemoteMessage>, b: Option<u64>)
    ensures
        count_gt(h, b) <= h.len(),
    decreases h.len(),
{
    reveal(count_gt);
    if h.len() > 0 {
        lemma_count_gt_le_len(h.drop_last(), b);
    }
}

/// A cursor that counts nothing admits no id.
proof fn lemma_count_lt_zero_converse(h: Seq<RemoteMessage>, b: Option<u64>)
    requires
        count_lt(h, b) == 0,
    ensures
        forall|x: int| 0 <= x < h.len() ==> !id_lt((#[trigger] h[x]).id, b),
    decreases h.len(),
{
    reveal(count_lt);
    if h.len() > 0 {
        lemma_count_lt_zero_converse(h.drop_last(), b);
        assert forall|x: int| 0 <= x < h.len() implies !id_lt((#[trigger] h[x]).id, b) by {
            if x < h.len() - 1 {
                assert(h.drop_last()[x] == h[x]);
            }
        };
    }
}

/// A cursor that counts nothing admits no id.
proof fn lemma_count_gt_zero_converse(h: Seq<RemoteMessage>, b: Option<u64>)
    requires
        count_gt(h, b) == 0,
    ensures
        forall|x: int| 0 <= x < h.len() ==> !id_gt((#[trigger] h[x]).id, b),
    decreases h.len(),
{
    reveal(count_gt);
    if h.len() > 0 {
        lemma_count_gt_zero_converse(h.drop_last(), b);
        assert forall|x: int| 0 <= x < h.len() implies !id_gt((#[trigger] h[x]).id, b) by {
            if x < h.len() - 1 {
                assert(h.drop_last()[x] == h[x]);
            }
        };
    }
}

/// Moving the cursor down to the largest admitted id excludes exactly that
/// one message.
proof fn lemma_count_lt_remove_max(h: Seq<RemoteMessage>, b: Option<u64>, m_id: u64)
    requires
        distinct_remote_ids(h),
        remote_has_id(h, m_id),
        id_lt(m_id, b),
        forall|x: int| 0 <= x < h.len() && id_lt((#[trigger] h[x]).id, b) ==> h[x].id <= m_id,
    ensures
        count_lt(h, b) == count_lt(h, Some(m_id)) + 1,
    decreases h.len(),
{
    reveal(count_lt);
    let rest = h.drop_last();
    if h.last().id == m_id {
        assert forall|x: int| 0 <= x < rest.len() implies (id_lt((#[trigger] rest[x]).id, b) <==> id_lt(
            rest[x].id,
            Some(m_id),
        )) by {
            assert(rest[x] == h[x]);
            assert(h[x].id != h[h.len() - 1].id);
        };
        lemma_count_lt_congruent(rest, b, Some(m_id));
    } else {
        let w = choose|x: int| 0 <= x < h.len() && (#[trigger] h[x]).id == m_id;
        assert(w < h.len() - 1);
        assert(rest[w].id == m_id);
        assert(remote_has_id(rest, m_id));
        assert forall|x: int|
            0 <= x < rest.len() && id_lt((#[trigger] rest[x]).id, b) implies rest[x].id <= m_id by {
            assert(rest[x] == h[x]);
        };
        lemma_count_lt_remove_max(rest, b, m_id);
        if id_lt(h.last().id, b) {
            assert(h.last().id <= m_id);
            assert(h.last().id != m_id);
        } else {
            if h.last().id < m_id {
                assert(id_lt(h.last().id, b));
            }
        }
    }
}

/// Moving the cursor up to the smallest admitted id excludes exactly that
/// one message.
proof fn lemma_count_gt_remove_min(h: Seq<RemoteMessage>, b: Option<u64>, m_id: u64)
    requires
        distinct_remote_ids(h),
        remote_has_id(h, m_id),
        id_gt(m_id, b),
        forall|x: int| 0 <= x < h.len() && id_gt((#[trigger] h[x]).id, b) ==> h[x].id >= m_id,
    ensures
        count_gt(h, b) == count_gt(h, Some(m_id)) + 1,
    decreases h.len(),
{
    reveal(count_gt);
    let rest = h.drop_last();
    if h.last().id == m_id {
        assert forall|x: int| 0 <= x < rest.len() implies (id_gt((#[trigger] rest[x]).id, b) <==> id_gt(
            rest[x].id,
            Some(m_id),
        )) by {
            assert(rest[x] == h[x]);
            assert(h[x].id != h[h.len() - 1].id);
        };
        lemma_count_gt_congruent(rest, b, Some(m_id));
    } else {
        let w = choose|x: int| 0 <= x < h.len() && (#[trigger] h[x]).id == m_id;
        assert(w < h.len() - 1);
        assert(rest[w].id == m_id);
        assert(remote_has_id(rest, m_id));
        assert forall|x: int|
            0 <= x < rest.len() && id_gt((#[trigger] rest[x]).id, b) implies rest[x].id >= m_id by {
            assert(rest[x] == h[x]);
        };
        lemma_count_gt_remove_min(rest, b, m_id);
        if id_gt(h.last().id, b) {
            assert(h.last().id >= m_id);
            assert(h.last().id != m_id);
        } else {
            if h.last().id > m_id {
                assert(id_gt(h.last().id, b));
            }
        }
    }
}

/// Cursors that admit the same ids count the same messages.
proof fn lemma_count_gt_congruent(h: Seq<RemoteMessage>, b1: Option<u64>, b2: Option<u64>)
    requires
        forall|x: int| 0 <= x < h.len() ==> (id_gt((#[trigger] h[x]).id, b1) <==> id_gt(h[x].id, b2)),
    ensures
        count_gt(h, b1) == count_gt(h, b2),
    decreases h.len(),
{
    reveal(count_gt);
    if h.len() > 0 {
        lemma_count_gt_congruent(h.drop_last(), b1, b2);
    }
}

/// A cursor that admits no id counts nothing.
proof fn lemma_count_gt_zero(h: Seq<RemoteMessage>, b: Option<u64>)
    requires
        forall|x: int| 0 <= x < h.len() ==> !id_gt((#[trigger] h[x]).id, b),
    ensures
        count_gt(h, b) == 0,
    decreases h.len(),
{
    reveal(count_gt);
    if h.len() > 0 {
        lemma_count_gt_zero(h.drop_last(), b);
    }
}

/// Some page row carries this id.
pub open spec fn page_has_id(p: Seq<RemoteMessage>, id: u64) -> bool {
    exists|i: int| 0 <= i < p.len() && (#[trigger] p[i]).id == id
}

/// The index of the remote message with the largest id strictly below the
/// cursor, if any lies there.
fn pick_max_below(h: &Vec<RemoteMessage>, bound: Option<u64>) -> (r: Option<usize>)
    ensures
        r matches Some(ix) ==> ix < h@.len() && id_lt(h@[ix as int].id, bound) && (forall|x: int|
            0 <= x < h@.len() && id_lt((#[trigger] h@[x]).id, bound) ==> h@[x].id <= h@[ix as int].id),
        r is None ==> forall|x: int| 0 <= x < h@.len() ==> !id_lt((#[trigger] h@[x]).id, bound),
{
    let mut best: Option<usize> = None;
    let mut k: usize = 0;
    while k < h.len()
        invariant
            0 <= k <= h@.len(),
            best is None ==> forall|x: int| 0 <= x < k ==> !id_lt((#[trigger] h@[x]).id, bound),
            best matches Some(ix) ==> ix < k && id_lt(h@[ix as int].id, bound) && (forall|x: int|
                0 <= x < k && id_lt((#[trigger] h@[x]).id, bound) ==> h@[x].id <= h@[ix as int].id),
        decreases h@.len() - k,
    {
        let below = match bound {
            Some(v) => h[k].id < v,
            None => true,
        };
        proof {
            assert(below == id_lt(h@[k as int].id, bound));
        }
        if below {
            let better = match best {
                None => true,
                Some(ix) => h[k].id > h[ix].id,
            };
            if better {
                best = Some(k);
            }
        }
        k += 1;
    }
    best
}

/// The index of the remote message with the smallest id strictly above the
/// cursor, if any lies there.
fn pick_min_above(h: &Vec<RemoteMessage>, bound: Option<u64>) -> (r: Option<usize>)
    ensures
        r matches Some(ix) ==> ix < h@.len() && id_gt(h@[ix as int].id, bound) && (forall|x: int|
            0 <= x < h@.len() && id_gt((#[trigger] h@[x]).id, bound) ==> h@[x].id >= h@[ix as int].id),
        r is None ==> forall|x: int| 0 <= x < h@.len() ==> !id_gt((#[trigger] h@[x]).id, bound),
{
    let mut best: Option<usize> = None;
    let mut k: usize = 0;
    while k < h.len()
        invariant
            0 <= k <= h@.len(),
            best is None ==> forall|x: int| 0 <= x < k ==> !id_gt((#[trigger] h@[x]).id, bound),
            best matches Some(ix) ==> ix < k && id_gt(h@[ix as int].id, bound) && (forall|x: int|
                0 <= x < k && id_gt((#[trigger] h@[x]).id, bound) ==> h@[x].id >= h@[ix as int].id),
        decreases h@.len() - k,
    {
        let above = match bound {
            Some(v) => h[k].id > v,
            None => true,
        };
        proof {
            assert(above == id_gt(h@[k as int].id, bound));
        }
        if above {
            let better = match best {
                None => true,
                Some(ix) => h[k].id < h[ix].id,
            };
            if better {
                best = Some(k);
            }
        }
        k += 1;
    }
    best
}

/// The page the remote hands back for a request strictly below the cursor
/// (no cursor: the most recent page): the `limit` largest ids below it, in
/// descending order.
#[verifier::rlimit(60)]
fn fetch_below(h: &Vec<RemoteMessage>, bound: Option<u64>, limit: u8) -> (page: Vec<RemoteMessage>)
    requires
        distinct_remote_ids(h@),
        limit >= 1,
    ensures
        page@.len() == if limit as int <= count_lt(h@, bound) {
            limit as int
        } else {
            count_lt(h@, bound) as int
        },
        forall|i: int|
            0 <= i < page@.len() ==> id_lt((#[trigger] page@[i]).id, bound) && exists|x: int|
                0 <= x < h@.len() && #[trigger] h@[x] == page@[i],
        forall|i: int, j: int| 0 <= i < j < page@.len() ==> page@[i].id > page@[j].id,
        page@.len() > 0 ==> count_lt(h@, Some(page@[page@.len() - 1].id)) == count_lt(h@, bound)
            - page@.len(),
        forall|x: int|
            0 <= x < h@.len() && id_lt((#[trigger] h@[x]).id, bound) ==> page_has_id(
                page@,
                h@[x].id,
            ) || (page@.len() > 0 && h@[x].id < page@[page@.len() - 1].id),
{
    let mut page: Vec<RemoteMessage> = Vec::new();
    let mut cur: Option<u64> = bound;
    while page.len() < limit as usize
        invariant_except_break
            distinct_remote_ids(h@),
            page@.len() <= limit as int,
            cur == if page@.len() == 0 {
                bound
            } else {
                Some(page@[page@.len() - 1].id)
            },
            page@.len() + count_lt(h@, cur) == count_lt(h@, bound),
            forall|i: int|
                0 <= i < page@.len() ==> id_lt((#[trigger] page@[i]).id, bound) && exists|x: int|
                    0 <= x < h@.len() && #[trigger] h@[x] == page@[i],
            forall|i: int, j: int| 0 <= i < j < page@.len() ==> page@[i].id > page@[j].id,
            forall|x: int|
                0 <= x < h@.len() && id_lt((#[trigger] h@[x]).id, bound) ==> page_has_id(
                    page@,
                    h@[x].id,
                ) || id_lt(h@[x].id, cur),
        ensures
            distinct_remote_ids(h@),
            page@.len() <= limit as int,
            cur == if page@.len() == 0 {
                bound
            } else {
                Some(page@[page@.len() - 1].id)
            },
            page@.len() + count_lt(h@, cur) == count_lt(h@, bound),
            page@.len() == limit as int || count_lt(h@, cur) == 0,
            forall|i: int|
                0 <= i < page@.len() ==> id_lt((#[trigger] page@[i]).id, bound) && exists|x: int|
                    0 <= x < h@.len() && #[trigger] h@[x] == page@[i],
            forall|i: int, j: int| 0 <= i < j < page@.len() ==> page@[i].id > page@[j].id,
            forall|x: int|
                0 <= x < h@.len() && id_lt((#[trigger] h@[x]).id, bound) ==> page_has_id(
                    page@,
                    h@[x].id,
                ) || id_lt(h@[x].id, cur),
        decreases count_lt(h@, cur),
    {
        let picked = pick_max_below(h, cur);
        match picked {
            None => {
                proof {
                    lemma_count_lt_zero(h@, cur);
                }
                break ;
            },
            Some(ix) => {
                proof {
                    assert(remote_has_id(h@, h@[ix as int].id));
                    lemma_count_lt_remove_max(h@, cur, h@[ix as int].id);
                }
                let ghost page0 = page@;
                let ghost cur0 = cur;
                let m = h[ix].clone();
                cur = Some(m.id);
                page.push(m);
                proof {
                    assert(page@[page@.len() - 1] == h@[ix as int]);
                    assert forall|i: int, j: int| 0 <= i < j < page@.len() implies page@[i].id
                        > page@[j].id by {
                        if j < page@.len() - 1 {
                            assert(page@[i] == page0[i] && page@[j] == page0[j]);
                        } else {
                            assert(page@[j] == h@[ix as int]);
                            if i < page@.len() - 1 {
                                assert(page@[i] == page0[i]);
                                assert(id_lt(h@[ix as int].id, cur0));
                                if page0.len() > 0 {
                                    assert(cur0 == Some(page0[page0.len() - 1].id));
                                    assert(page0[page0.len() - 1].id >= page0[i].id
                                        || page0[i].id > page0[page0.len() - 1].id);
                                }
                            }
                        }
                    };
                    assert forall|x: int|
                        0 <= x < h@.len() && id_lt((#[trigger] h@[x]).id, bound) implies
                        page_has_id(page@, h@[x].id) || id_lt(h@[x].id, cur) by {
                        if page_has_id(page0, h@[x].id) {
                            let i0 = choose|i: int|
                                0 <= i < page0.len() && (#[trigger] page0[i]).id == h@[x].id;
                            assert(page@[i0].id == h@[x].id);
                        } else if id_lt(h@[x].id, cur0) {
                            if h@[x].id == h@[ix as int].id {
                                assert(page@[page@.len() - 1].id == h@[x].id);
                            } else {
                                assert(h@[x].id <= h@[ix as int].id);
                            }
                        }
                    };
                }
            },
        }
    }
    proof {
        if page@.len() < limit as int {
            assert(count_lt(h@, cur) == 0);
        }
        if page@.len() == 0 {
            lemma_count_lt_zero_converse(h@, bound);
        }
    }
    page
}

/// The page the remote hands back for a request strictly above the cursor
/// (no cursor: the most recent page, which for an empty store means the
/// `limit` largest ids): ascending order for a cursor, the smallest ids
/// above it first.
fn fetch_above(h: &Vec<RemoteMessage>, cursor: u64, limit: u8) -> (page: Vec<RemoteMessage>)
    requires
        distinct_remote_ids(h@),
        limit >= 1,
    ensures
        page@.len() <= limit as int,
        page@.len() == 0 <==> count_gt(h@, Some(cursor)) == 0,
        forall|i: int|
            0 <= i < page@.len() ==> (#[trigger] page@[i]).id > cursor && exists|x: int|
                0 <= x < h@.len() && #[trigger] h@[x] == page@[i],
        forall|i: int, j: int| 0 <= i < j < page@.len() ==> page@[i].id < page@[j].id,
        page@.len() > 0 ==> count_gt(h@, Some(page@[page@.len() - 1].id)) == count_gt(
            h@,
            Some(cursor),
        ) - page@.len(),
        forall|x: int|
            0 <= x < h@.len() && (#[trigger] h@[x]).id > cursor ==> page_has_id(page@, h@[x].id)
                || (page@.len() > 0 && h@[x].id > page@[page@.len() - 1].id),
{
    let mut page: Vec<RemoteMessage> = Vec::new();
    let mut cur: u64 = cursor;
    while page.len() < limit as usize
        invariant_except_break
            distinct_remote_ids(h@),
            page@.len() <= limit as int,
            cur == if page@.len() == 0 {
                cursor
            } else {
                page@[page@.len() - 1].id
            },
            page@.len() + count_gt(h@, Some(cur)) == count_gt(h@, Some(cursor)),
            forall|i: int|
                0 <= i < page@.len() ==> (#[trigger] page@[i]).id > cursor && exists|x: int|
                    0 <= x < h@.len() && #[trigger] h@[x] == page@[i],
            forall|i: int, j: int| 0 <= i < j < page@.len() ==> page@[i].id < page@[j].id,
            forall|x: int|
                0 <= x < h@.len() && (#[trigger] h@[x]).id > cursor ==> page_has_id(
                    page@,
                    h@[x].id,
                ) || h@[x].id > cur,
        ensures
            distinct_remote_ids(h@),
            page@.len() <= limit as int,
            cur == if page@.len() == 0 {
                cursor
            } else {
                page@[page@.len() - 1].id
            },
            page@.len() + count_gt(h@, Some(cur)) == count_gt(h@, Some(cursor)),
            page@.len() == limit as int || count_gt(h@, Some(cur)) == 0,
            forall|i: int|
                0 <= i < page@.len() ==> (#[trigger] page@[i]).id > cursor && exists|x: int|
                    0 <= x < h@.len() && #[trigger] h@[x] == page@[i],
            forall|i: int, j: int| 0 <= i < j < page@.len() ==> page@[i].id < page@[j].id,
            forall|x: int|
                0 <= x < h@.len() && (#[trigger] h@[x]).id > cursor ==> page_has_id(
                    page@,
                    h@[x].id,
                ) || h@[x].id > cur,
        decreases count_gt(h@, Some(cur)),
    {
        let picked = pick_min_above(h, Some(cur));
        match picked {
            None => {
                proof {
                    lemma_count_gt_zero(h@, Some(cur));
                }
                break ;
            },
            Some(ix) => {
                proof {
                    assert(remote_has_id(h@, h@[ix as int].id));
                    lemma_count_gt_remove_min(h@, Some(cur), h@[ix as int].id);
                }
                let ghost page0 = page@;
                let ghost cur0 = cur;
                let m = h[ix].clone();
                cur = m.id;
                page.push(m);
                proof {
                    assert(page@[page@.len() - 1] == h@[ix as int]);
                    assert forall|i: int, j: int| 0 <= i < j < page@.len() implies page@[i].id
                        < page@[j].id by {
                        if j < page@.len() - 1 {
                            assert(page@[i] == page0[i] && page@[j] == page0[j]);
                        } else {
                            assert(page@[j] == h@[ix as int]);
                            if i < page@.len() - 1 {
                                assert(page@[i] == page0[i]);
                                assert(id_gt(h@[ix as int].id, Some(cur0)));
                            }
                        }
                    };
                    assert forall|x: int|
                        0 <= x < h@.len() && (#[trigger] h@[x]).id > cursor implies page_has_id(
                        page@,
                        h@[x].id,
                    ) || h@[x].id > cur by {
                        if page_has_id(page0, h@[x].id) {
                            let i0 = choose|i: int|
                                0 <= i < page0.len() && (#[trigger] page0[i]).id == h@[x].id;
                            assert(page@[i0].id == h@[x].id);
                        } else if h@[x].id > cur0 {
                            if h@[x].id == h@[ix as int].id {
                                assert(page@[page@.len() - 1].id == h@[x].id);
                            } else {
                                assert(h@[x].id >= h@[ix as int].id);
                            }
                        }
                    };
                }
            },
        }
    }
    proof {
        if page@.len() == 0 {
            assert(count_gt(h@, Some(cursor)) == count_gt(h@, Some(cur)));
            lemma_count_gt_zero_converse(h@, Some(cursor));
        }
        if count_gt(h@, Some(cursor)) == 0 {
            assert(page@.len() + count_gt(h@, Some(cur)) == 0);
        }
    }
    page
}

/// Every history id is stored.
pub open spec fn all_history_stored(v: DbView, h: Seq<RemoteMessage>) -> bool {
    forall|x: int| 0 <= x < h.len() ==> v.has_message((#[trigger] h[x]).id)
}

/// Every stored message of the channel is the stored image of a remote
/// one under the current membership.
pub open spec fn stored_matches_history(
    v: DbView,
    cid: u64,
    h: Seq<RemoteMessage>,
    members: Seq<u64>,
) -> bool {
    forall|i: int|
        0 <= i < v.messages.len() && (#[trigger] v.messages[i]).channel_id == cid ==> exists|x: int|
            0 <= x < h.len() && v.messages[i] == map_message_spec(#[trigger] h[x], members)
}

/// No stored message of another channel reuses a history id; remote ids
/// are globally unique.
pub open spec fn foreign_ids_disjoint(v: DbView, cid: u64, h: Seq<RemoteMessage>) -> bool {
    forall|i: int, x: int|
        0 <= i < v.messages.len() && 0 <= x < h.len() && (#[trigger] v.messages[i]).channel_id
            != cid ==> v.messages[i].id != (#[trigger] h[x]).id
}

/// The stored part of the channel is an upward-closed slice of history:
/// everything at or above a stored id is stored.  The protocol maintains
/// this because backfill only ever extends downward from the oldest
/// stored id and catch-up upward from the newest.
pub open spec fn upward_closed(v: DbView, cid: u64, h: Seq<RemoteMessage>) -> bool {
    forall|i: int, x: int|
        0 <= i < v.messages.len() && 0 <= x < h.len() && (#[trigger] v.messages[i]).channel_id
            == cid && (#[trigger] h[x]).id >= v.messages[i].id ==> v.has_message(h[x].id)
}

/// Every known member is a stored user, so a kept author cannot dangle.
pub open spec fn members_known(v: DbView, members: Seq<u64>) -> bool {
    forall|j: int| 0 <= j < members.len() ==> v.has_user(#[trigger] members[j])
}

/// The store is ready for forward catch-up alone: every remote message is
/// already stored, or lies strictly above every stored message of the
/// channel, so paging upward from the newest stored row reaches it.  The
/// protocol guarantees this whenever the backfill flag is set.
pub open spec fn catchup_ready(v: DbView, cid: u64, h: Seq<RemoteMessage>) -> bool {
    forall|x: int|
        0 <= x < h.len() ==> v.has_message((#[trigger] h[x]).id) || (v.channel_has_messages(cid)
            && forall|i: int|
            0 <= i < v.messages.len() && (#[trigger] v.messages[i]).channel_id == cid
                ==> v.messages[i].id < h[x].id)
}

/// Whether this id is one of the known member ids.
fn member_contains(member_ids: &Vec<u64>, a: u64) -> (r: bool)
    ensures
        r == member_ids@.contains(a),
{
    let mut k: usize = 0;
    while k < member_ids.len()
        invariant
            0 <= k <= member_ids.len(),
            forall|i: int| 0 <= i < k ==> member_ids@[i] != a,
        decreases member_ids.len() - k,
    {
        if member_ids[k] == a {
            proof {
                assert(member_ids@[k as int] == a);
            }
            return true;
        }
        k += 1;
    }
    false
}

/// Turn a fetched page into storable rows, nulling authors that are not
/// known members at scrape time.
fn map_messages(page: &Vec<RemoteMessage>, member_ids: &Vec<u64>) -> (out: Vec<Message>)
    ensures
        out@.len() == page@.len(),
        forall|i: int|
            0 <= i < page@.len() ==> #[trigger] out@[i] == map_message_spec(
                page@[i],
                member_ids@,
            ),
{
    let mut out: Vec<Message> = Vec::new();
    let mut k: usize = 0;
    while k < page.len()
        invariant
            0 <= k <= page@.len(),
            out@.len() == k,
            forall|i: int|
                0 <= i < k ==> #[trigger] out@[i] == map_message_spec(page@[i], member_ids@),
        decreases page@.len() - k,
    {
        let m = &page[k];
        let author = if member_contains(member_ids, m.author_id) {
            Some(m.author_id)
        } else {
            None
        };
        out.push(
            Message {
                id: m.id,
                channel_id: m.channel_id,
                author_id: author,
                content: m.content.clone(),
                timestamp: m.timestamp,
            },
        );
        k += 1;
    }
    out
}

/// One backward backfill run: page strictly older than the oldest stored
/// message (or the most recent page when nothing is stored), persist,
/// repeat; the first empty page proves the remote has no older history,
/// so the channel is marked backfilled, exactly once.  From a cold start
/// this takes `ceil(K / P) + 1` fetches for `K` remote messages and page
/// size `P`.
#[verifier::rlimit(100)]
#[verifier::spinoff_prover]
pub fn backfill_channel(
    db: &mut Database,
    channel_id: u64,
    history: &Vec<RemoteMessage>,
    member_ids: &Vec<u64>,
    page_size: u8,
) -> (fetches: u64)
    requires
        old(db)@.wf(),
        old(db)@.has_channel(channel_id),
        history_for_channel(history@, channel_id),
        distinct_remote_ids(history@),
        members_known(old(db)@, member_ids@),
        stored_matches_history(old(db)@, channel_id, history@, member_ids@),
        foreign_ids_disjoint(old(db)@, channel_id, history@),
        upward_closed(old(db)@, channel_id, history@),
        page_size >= 1,
        history@.len() + 2 <= u64::MAX,
    ensures
        final(db)@.wf(),
        all_history_stored(final(db)@, history@),
        stored_matches_history(final(db)@, channel_id, history@, member_ids@),
        forall|id: u64|
            final(db)@.has_message(id) <==> old(db)@.has_message(id) || remote_has_id(
                history@,
                id,
            ),
        final(db)@.messages.len() >= old(db)@.messages.len(),
        forall|i: int|
            0 <= i < old(db)@.messages.len() ==> #[trigger] final(db)@.messages[i] == old(
                db,
            )@.messages[i],
        forall|i: int|
            old(db)@.messages.len() <= i < final(db)@.messages.len() ==> exists|x: int|
                0 <= x < history@.len() && #[trigger] final(db)@.messages[i] == map_message_spec(
                    history@[x],
                    member_ids@,
                ),
        final(db)@.guilds == old(db)@.guilds,
        final(db)@.users == old(db)@.users,
        final(db)@.emojis == old(db)@.emojis,
        exists|i: int|
            0 <= i < old(db)@.channels.len() && (#[trigger] old(db)@.channels[i]).id == channel_id
                && final(db)@.channels == old(db)@.channels.update(
                i,
                (Channel { backfill_done: true, ..old(db)@.channels[i] }),
            ),
        all_history_stored(old(db)@, history@) ==> final(db)@.messages == old(db)@.messages,
        !old(db)@.channel_has_messages(channel_id) ==> fetches == (history@.len() + page_size - 1)
            / (page_size as int) + 1,
        1 <= fetches <= history@.len() + 1,
{
    let ghost v0 = old(db)@;
    let ghost hist = history@;
    let ghost members = member_ids@;
    let ghost kk: int = hist.len() as int;
    let ghost pp: int = page_size as int;
    let ghost started_empty = !v0.channel_has_messages(channel_id);
    let ghost mut bound: Option<u64> = None;
    proof {
        if v0.channel_has_messages(channel_id) {
            let i = choose|i: int|
                0 <= i < v0.messages.len() && (#[trigger] v0.messages[i]).channel_id == channel_id;
            // the oldest stored id exists; name it through the query spec
        }
    }
    let probe = db.get_channel_first_message(channel_id);
    proof {
        match probe {
            Some(m) => {
                bound = Some(m.id);
            },
            None => {
                bound = None;
            },
        }
    }
    let mut fetches: u64 = 0;
    let mut done = false;
    proof {
        lemma_count_lt_le_len(hist, bound);
        if started_empty {
            assert(bound is None);
            lemma_count_lt_all(hist);
        }
    }
    while !done
        invariant
            db@.wf(),
            db@.has_channel(channel_id),
            hist == history@,
            members == member_ids@,
            history_for_channel(hist, channel_id),
            distinct_remote_ids(hist),
            members_known(db@, members),
            page_size >= 1,
            pp == page_size as int,
            kk == hist.len() as int,
            hist.len() + 2 <= u64::MAX,
            stored_matches_history(db@, channel_id, hist, members),
            foreign_ids_disjoint(db@, channel_id, hist),
            started_empty == !v0.channel_has_messages(channel_id),
            // while running, the channels are untouched; when finished the
            // one channel's flag has been raised
            !done ==> db@.channels == v0.channels,
            done ==> exists|i: int|
                0 <= i < v0.channels.len() && (#[trigger] v0.channels[i]).id == channel_id
                    && db@.channels == v0.channels.update(
                    i,
                    (Channel { backfill_done: true, ..v0.channels[i] }),
                ),
            db@.guilds == v0.guilds,
            db@.users == v0.users,
            db@.emojis == v0.emojis,
            // the cursor mirrors the oldest stored message of the channel
            bound is None ==> !db@.channel_has_messages(channel_id),
            bound matches Some(b) ==> (exists|i: int|
                0 <= i < db@.messages.len() && (#[trigger] db@.messages[i]).channel_id == channel_id
                    && db@.messages[i].id == b) && (forall|i: int|
                0 <= i < db@.messages.len() && (#[trigger] db@.messages[i]).channel_id == channel_id
                    ==> db@.messages[i].id >= b),
            // everything at or above the cursor is stored, nothing below is
            forall|x: int|
                0 <= x < hist.len() && !id_lt((#[trigger] hist[x]).id, bound) ==> db@.has_message(
                    hist[x].id,
                ),
            forall|x: int|
                0 <= x < hist.len() && id_lt((#[trigger] hist[x]).id, bound) ==> !db@.has_message(
                    hist[x].id,
                ),
            // which ids have been added so far
            forall|id: u64|
                db@.has_message(id) <==> v0.has_message(id) || (remote_has_id(hist, id) && !id_lt(
                    id,
                    bound,
                )),
            // rows are only appended, and only as images of history
            db@.messages.len() >= v0.messages.len(),
            forall|i: int|
                0 <= i < v0.messages.len() ==> #[trigger] db@.messages[i] == v0.messages[i],
            forall|i: int|
                v0.messages.len() <= i < db@.messages.len() ==> exists|x: int|
                    0 <= x < hist.len() && #[trigger] db@.messages[i] == map_message_spec(
                        hist[x],
                        members,
                    ),
            all_history_stored(v0, hist) ==> db@.messages == v0.messages,
            // fetch accounting
            !done ==> fetches as int <= kk - count_lt(hist, bound),
            done ==> 1 <= fetches as int <= kk + 1,
            started_empty && !done ==> (count_lt(hist, bound) == (if fetches as int * pp <= kk {
                kk - fetches as int * pp
            } else {
                0
            }) && (fetches > 0 ==> (fetches as int - 1) * pp < kk)),
            started_empty && done ==> fetches as int == (kk + pp - 1) / pp + 1,
            done ==> all_history_stored(db@, hist),
        decreases (if done {
            0int
        } else {
            1int
        }), count_lt(hist, bound),
    {
        let first = db.get_channel_first_message(channel_id);
        let q: Option<u64> = match &first {
            None => None,
            Some(m) => Some(m.id),
        };
        proof {
            match first {
                Some(m) => {
                    assert(db@.is_oldest_message(channel_id, m));
                    assert(bound is Some);
                    let b = bound->0;
                    let i = choose|i: int|
                        0 <= i < db@.messages.len() && (#[trigger] db@.messages[i]).channel_id
                            == channel_id && db@.messages[i].id == b;
                    assert(m.id <= db@.messages[i].id);
                    assert(m.id >= b);
                    assert(q == bound);
                },
                None => {
                    assert(bound is None);
                },
            }
        }
        let page = fetch_below(history, q, page_size);
        fetches += 1;
        if page.len() == 0 {
            proof {
                assert(count_lt(hist, bound) == 0);
                lemma_count_lt_zero_converse(hist, bound);
                assert(all_history_stored(db@, hist));
                if started_empty {
                    lemma_count_lt_all(hist);
                    let g = fetches as int - 1;
                    assert(g * pp >= kk && (g > 0 ==> (g - 1) * pp < kk));
                    assert(g == (kk + pp - 1) / pp) by (nonlinear_arith)
                        requires
                            pp >= 1,
                            kk >= 0,
                            g >= 0,
                            g * pp >= kk,
                            g > 0 ==> (g - 1) * pp < kk,
                    ;
                }
            }
            let ghost vmark = db@;
            let marked = db.set_channel_backfilled(channel_id);
            proof {
                assert(marked is Ok);
                let ci = choose|i: int|
                    0 <= i < vmark.channels.len() && (#[trigger] vmark.channels[i]).id == channel_id
                        && db@.channels == vmark.channels.update(
                        i,
                        (Channel { backfill_done: true, ..vmark.channels[i] }),
                    );
                assert(db@.channels[ci].id == channel_id);
            }
            done = true;
        } else {
            let msgs = map_messages(&page, member_ids);
            let ghost vpre = db@;
            proof {
                // every page row inserts: its id is below the cursor, so
                // unstored, and page ids never repeat
                assert forall|i: int|
                    0 <= i < msgs@.len() && message_batch_row_new(vpre, msgs@, i) implies
                    vpre.message_ok(#[trigger] msgs@[i]) by {
                    let x = choose|x: int| 0 <= x < hist.len() && #[trigger] hist[x] == page@[i];
                    assert(msgs@[i].channel_id == channel_id);
                    match msgs@[i].author_id {
                        Some(a) => {
                            assert(members.contains(a));
                            let j = choose|j: int| 0 <= j < members.len() && members[j] == a;
                            assert(vpre.has_user(members[j]));
                        },
                        None => {},
                    }
                };
                assert(message_batch_ok(vpre, msgs@));
            }
            let saved = db.save_messages(&msgs);
            proof {
                assert(saved is Ok);
                let vnew = db@;
                assert(vnew.messages == upsert_messages(vpre.messages, msgs@));
                lemma_upsert_messages_structure(vpre.messages, msgs@);
                assert forall|id: u64|
                    vnew.has_message(id) <==> vpre.has_message(id) || page_has_id(page@, id) by {
                    lemma_upsert_messages_have(vpre.messages, msgs@, id);
                    if crate::database::messages_have(msgs@, id) {
                        let i = choose|i: int|
                            0 <= i < msgs@.len() && (#[trigger] msgs@[i]).id == id;
                        assert(page@[i].id == id);
                    }
                    if page_has_id(page@, id) {
                        let i = choose|i: int|
                            0 <= i < page@.len() && (#[trigger] page@[i]).id == id;
                        assert(msgs@[i].id == id);
                    }
                };
                let newb = page@[page@.len() - 1].id;
                // the new cursor is the smallest id of the page, which is
                // now the oldest stored message of the channel
                assert(page_has_id(page@, newb));
                assert(vnew.has_message(newb));
                let wb = choose|i: int|
                    0 <= i < vnew.messages.len() && (#[trigger] vnew.messages[i]).id == newb;
                assert(vnew.messages[wb].channel_id == channel_id) by {
                    if wb < vpre.messages.len() {
                        assert(!vpre.has_message(newb));
                        assert(vpre.messages[wb].id != newb || vnew.messages[wb]
                            == vpre.messages[wb]);
                    }
                }
                assert forall|i: int|
                    0 <= i < vnew.messages.len() && (#[trigger] vnew.messages[i]).channel_id
                        == channel_id implies vnew.messages[i].id >= newb by {
                    if i < vpre.messages.len() {
                        assert(vnew.messages[i] == vpre.messages[i]);
                        if bound is Some {
                            assert(vpre.messages[i].id >= bound->0);
                            assert(newb < bound->0 || newb == bound->0);
                        }
                    } else {
                        let j = choose|j: int|
                            0 <= j < msgs@.len() && #[trigger] vnew.messages[i] == msgs@[j];
                        assert(page@[j].id >= newb);
                    }
                };
                // count accounting for the next round
                assert(count_lt(hist, Some(newb)) == count_lt(hist, bound) - page@.len());
                if started_empty {
                    let f0 = fetches as int - 1;
                    let co = count_lt(hist, bound) as int;
                    let cn = count_lt(hist, Some(newb)) as int;
                    let le = page@.len() as int;
                    assert(co == (if f0 * pp <= kk {
                        kk - f0 * pp
                    } else {
                        0
                    }));
                    assert(le == (if pp <= co {
                        pp
                    } else {
                        co
                    }));
                    assert(cn == (if (f0 + 1) * pp <= kk {
                        kk - (f0 + 1) * pp
                    } else {
                        0
                    }) && (f0 + 1 > 0 ==> ((f0 + 1) - 1) * pp < kk)) by (nonlinear_arith)
                        requires
                            pp >= 1,
                            kk >= 0,
                            f0 >= 0,
                            le >= 1,
                            cn == co - le,
                            co == (if f0 * pp <= kk {
                                kk - f0 * pp
                            } else {
                                0
                            }),
                            le == (if pp <= co {
                                pp
                            } else {
                                co
                            }),
                    ;
                }
                bound = Some(newb);
            }
        }
    }
    proof {
        assert(all_history_stored(db@, hist));
    }
    fetches
}

/// One forward catch-up run: page strictly newer than the newest stored
/// message, persist, repeat; the first empty page means the channel is
/// caught up for this cycle.  Afterwards the newest stored id of the
/// channel equals the remote's newest id.
#[verifier::rlimit(100)]
#[verifier::spinoff_prover]
pub fn catchup_channel(
    db: &mut Database,
    channel_id: u64,
    history: &Vec<RemoteMessage>,
    member_ids: &Vec<u64>,
    page_size: u8,
) -> (fetches: u64)
    requires
        old(db)@.wf(),
        old(db)@.has_channel(channel_id),
        history_for_channel(history@, channel_id),
        distinct_remote_ids(history@),
        members_known(old(db)@, member_ids@),
        stored_matches_history(old(db)@, channel_id, history@, member_ids@),
        foreign_ids_disjoint(old(db)@, channel_id, history@),
        catchup_ready(old(db)@, channel_id, history@),
        page_size >= 1,
        history@.len() + 2 <= u64::MAX,
    ensures
        final(db)@.wf(),
        all_history_stored(final(db)@, history@),
        stored_matches_history(final(db)@, channel_id, history@, member_ids@),
        forall|id: u64|
            final(db)@.has_message(id) <==> old(db)@.has_message(id) || remote_has_id(
                history@,
                id,
            ),
        final(db)@.messages.len() >= old(db)@.messages.len(),
        forall|i: int|
            0 <= i < old(db)@.messages.len() ==> #[trigger] final(db)@.messages[i] == old(
                db,
            )@.messages[i],
        forall|i: int|
            old(db)@.messages.len() <= i < final(db)@.messages.len() ==> exists|x: int|
                0 <= x < history@.len() && #[trigger] final(db)@.messages[i] == map_message_spec(
                    history@[x],
                    member_ids@,
                ),
        final(db)@.guilds == old(db)@.guilds,
        final(db)@.users == old(db)@.users,
        final(db)@.channels == old(db)@.channels,
        final(db)@.emojis == old(db)@.emojis,
        all_history_stored(old(db)@, history@) ==> final(db)@.messages == old(db)@.messages,
        history@.len() > 0 ==> exists|m: Message|
            final(db)@.is_newest_message(channel_id, m) && (forall|x: int|
                0 <= x < history@.len() ==> (#[trigger] history@[x]).id <= m.id) && remote_has_id(
                history@,
                m.id,
            ),
        1 <= fetches <= history@.len() + 1,
{
    let ghost v0 = old(db)@;
    let ghost hist = history@;
    let ghost members = member_ids@;
    let ghost kk: int = hist.len() as int;
    let ghost mut cur: Option<u64> = None;
    let probe = db.get_channel_last_message(channel_id);
    proof {
        match probe {
            Some(m) => {
                cur = Some(m.id);
            },
            None => {
                cur = None;
                // with nothing stored, readiness forces the remote history
                // to be empty: an unstored remote id would have to sit
                // above a stored row that does not exist
                if hist.len() > 0 {
                    if v0.has_message(hist[0].id) {
                        let i = choose|i: int|
                            0 <= i < v0.messages.len() && (#[trigger] v0.messages[i]).id
                                == hist[0].id;
                        if v0.messages[i].channel_id == channel_id {
                            assert(v0.channel_has_messages(channel_id));
                        }
                        assert(false);
                    } else {
                        assert(v0.channel_has_messages(channel_id));
                        assert(false);
                    }
                }
                assert(hist.len() == 0);
            },
        }
        lemma_count_gt_le_len(hist, cur);
    }
    let mut fetches: u64 = 0;
    let mut done = false;
    while !done
        invariant
            db@.wf(),
            db@.has_channel(channel_id),
            hist == history@,
            members == member_ids@,
            history_for_channel(hist, channel_id),
            distinct_remote_ids(hist),
            members_known(db@, members),
            page_size >= 1,
            kk == hist.len() as int,
            hist.len() + 2 <= u64::MAX,
            stored_matches_history(db@, channel_id, hist, members),
            foreign_ids_disjoint(db@, channel_id, hist),
            db@.guilds == v0.guilds,
            db@.users == v0.users,
            db@.channels == v0.channels,
            db@.emojis == v0.emojis,
            cur is None ==> !db@.channel_has_messages(channel_id) && hist.len() == 0,
            cur matches Some(b) ==> (exists|i: int|
                0 <= i < db@.messages.len() && (#[trigger] db@.messages[i]).channel_id == channel_id
                    && db@.messages[i].id == b) && (forall|i: int|
                0 <= i < db@.messages.len() && (#[trigger] db@.messages[i]).channel_id == channel_id
                    ==> db@.messages[i].id <= b),
            cur matches Some(b) ==> remote_has_id(hist, b) || (exists|i: int|
                0 <= i < v0.messages.len() && (#[trigger] v0.messages[i]).channel_id == channel_id
                    && v0.messages[i].id == b),
            forall|x: int|
                0 <= x < hist.len() && !id_gt((#[trigger] hist[x]).id, cur) ==> db@.has_message(
                    hist[x].id,
                ),
            forall|x: int|
                0 <= x < hist.len() && v0.has_message((#[trigger] hist[x]).id) ==> !id_gt(
                    hist[x].id,
                    cur,
                ),
            forall|id: u64|
                db@.has_message(id) <==> v0.has_message(id) || (remote_has_id(hist, id) && !id_gt(
                    id,
                    cur,
                )),
            db@.messages.len() >= v0.messages.len(),
            forall|i: int|
                0 <= i < v0.messages.len() ==> #[trigger] db@.messages[i] == v0.messages[i],
            forall|i: int|
                v0.messages.len() <= i < db@.messages.len() ==> exists|x: int|
                    0 <= x < hist.len() && #[trigger] db@.messages[i] == map_message_spec(
                        hist[x],
                        members,
                    ),
            all_history_stored(v0, hist) ==> db@.messages == v0.messages,
            !done ==> fetches as int <= kk - count_gt(hist, cur),
            done ==> 1 <= fetches as int <= kk + 1,
            done ==> all_history_stored(db@, hist),
            done ==> count_gt(hist, cur) == 0,
        decreases (if done {
            0int
        } else {
            1int
        }), count_gt(hist, cur),
    {
        let last = db.get_channel_last_message(channel_id);
        proof {
            match &last {
                Some(m) => {
                    assert(db@.is_newest_message(channel_id, *m));
                    assert(cur is Some);
                    let b = cur->0;
                    let i = choose|i: int|
                        0 <= i < db@.messages.len() && (#[trigger] db@.messages[i]).channel_id
                            == channel_id && db@.messages[i].id == b;
                    assert(m.id >= db@.messages[i].id);
                    assert(m.id <= b);
                },
                None => {
                    assert(cur is None);
                },
            }
        }
        let page = match &last {
            None => fetch_below(history, None, page_size),
            Some(m) => fetch_above(history, m.id, page_size),
        };
        fetches += 1;
        if page.len() == 0 {
            proof {
                match &last {
                    Some(m) => {
                        assert(count_gt(hist, Some(m.id)) == 0);
                        assert(count_gt(hist, cur) == 0);
                    },
                    None => {
                        lemma_count_gt_le_len(hist, cur);
                    },
                }
                lemma_count_gt_zero_converse(hist, cur);
                assert(all_history_stored(db@, hist));
            }
            done = true;
        } else {
            proof {
                assert(last is Some);
                assert(cur is Some);
            }
            let msgs = map_messages(&page, member_ids);
            let ghost vpre = db@;
            proof {
                assert forall|i: int|
                    0 <= i < msgs@.len() && message_batch_row_new(vpre, msgs@, i) implies
                    vpre.message_ok(#[trigger] msgs@[i]) by {
                    let x = choose|x: int| 0 <= x < hist.len() && #[trigger] hist[x] == page@[i];
                    assert(msgs@[i].channel_id == channel_id);
                    match msgs@[i].author_id {
                        Some(a) => {
                            assert(members.contains(a));
                            let j = choose|j: int| 0 <= j < members.len() && members[j] == a;
                            assert(vpre.has_user(members[j]));
                        },
                        None => {},
                    }
                };
                assert(message_batch_ok(vpre, msgs@));
            }
            let saved = db.save_messages(&msgs);
            proof {
                assert(saved is Ok);
                let vnew = db@;
                assert(vnew.messages == upsert_messages(vpre.messages, msgs@));
                lemma_upsert_messages_structure(vpre.messages, msgs@);
                assert forall|id: u64|
                    vnew.has_message(id) <==> vpre.has_message(id) || page_has_id(page@, id) by {
                    lemma_upsert_messages_have(vpre.messages, msgs@, id);
                    if crate::database::messages_have(msgs@, id) {
                        let i = choose|i: int|
                            0 <= i < msgs@.len() && (#[trigger] msgs@[i]).id == id;
                        assert(page@[i].id == id);
                    }
                    if page_has_id(page@, id) {
                        let i = choose|i: int|
                            0 <= i < page@.len() && (#[trigger] page@[i]).id == id;
                        assert(msgs@[i].id == id);
                    }
                };
                let newb = page@[page@.len() - 1].id;
                assert(page_has_id(page@, newb));
                assert(vnew.has_message(newb));
                let wb = choose|i: int|
                    0 <= i < vnew.messages.len() && (#[trigger] vnew.messages[i]).id == newb;
                assert(vnew.messages[wb].channel_id == channel_id) by {
                    if wb < vpre.messages.len() {
                        assert(!vpre.has_message(newb));
                        assert(vpre.messages[wb].id != newb || vnew.messages[wb]
                            == vpre.messages[wb]);
                    }
                }
                assert forall|i: int|
                    0 <= i < vnew.messages.len() && (#[trigger] vnew.messages[i]).channel_id
                        == channel_id implies vnew.messages[i].id <= newb by {
                    if i < vpre.messages.len() {
                        assert(vnew.messages[i] == vpre.messages[i]);
                        assert(vpre.messages[i].id <= cur->0);
                        assert(cur->0 < newb);
                    } else {
                        let j = choose|j: int|
                            0 <= j < msgs@.len() && #[trigger] vnew.messages[i] == msgs@[j];
                        assert(page@[j].id <= newb);
                    }
                };
                assert(count_gt(hist, Some(newb)) == count_gt(hist, cur) - page@.len());
                cur = Some(newb);
            }
        }
    }
    proof {
        if hist.len() > 0 {
            assert(cur is Some);
            let b = cur->0;
            lemma_count_gt_zero_converse(hist, cur);
            let i = choose|i: int|
                0 <= i < db@.messages.len() && (#[trigger] db@.messages[i]).channel_id == channel_id
                    && db@.messages[i].id == b;
            let m = db@.messages[i];
            assert(db@.is_newest_message(channel_id, m));
            assert(remote_has_id(hist, b) || (exists|i2: int|
                0 <= i2 < v0.messages.len() && (#[trigger] v0.messages[i2]).channel_id == channel_id
                    && v0.messages[i2].id == b));
            if !remote_has_id(hist, b) {
                // the newest stored id came from the store itself; the
                // remote then holds only ids at or below it, and its own
                // newest id is also stored, newest overall
                let i2 = choose|i2: int|
                    0 <= i2 < v0.messages.len() && (#[trigger] v0.messages[i2]).channel_id
                        == channel_id && v0.messages[i2].id == b;
                let x0 = choose|x: int|
                    0 <= x < v0.messages.len() && (#[trigger] v0.messages[x]).channel_id
                        == channel_id && v0.messages[x] == v0.messages[i2];
                assert(stored_matches_history(v0, channel_id, hist, members));
                assert(v0.messages[i2].channel_id == channel_id);
                let x = choose|x: int|
                    0 <= x < hist.len() && v0.messages[i2] == map_message_spec(
                        #[trigger] hist[x],
                        members,
                    );
                assert(hist[x].id == b);
                assert(remote_has_id(hist, b));
            }
        }
    }
    fetches
}


/// What one synchronization run did: how many pages each phase fetched,
/// and whether this run performed the one-time backfill-finished
/// transition.
pub struct SyncReport {
    pub backfill_fetches: u64,
    pub catchup_fetches: u64,
    pub marked_backfilled: bool,
}

/// The stored channel record with this id has finished its backfill.
pub open spec fn channel_backfilled(v: DbView, cid: u64) -> bool {
    exists|i: int| 0 <= i < v.channels.len() && (#[trigger] v.channels[i]).id == cid
        && v.channels[i].backfill_done
}

/// One full synchronization of a channel against its remote history:
/// backward backfill while the channel is not yet marked backfilled, then
/// forward catch-up; an unknown channel is rejected.  Afterwards every
/// remote message is stored and the channel is marked backfilled.
///
/// Backfill pages at `page_size`, the remote's default page size;
/// catch-up always requests maximum-size pages.  Ids are assigned by the
/// remote monotonically with creation time, so paging and cursors go by
/// id; the oldest and newest stored rows by id are the oldest and newest
/// by timestamp.
#[verifier::rlimit(100)]
#[verifier::spinoff_prover]
pub fn sync_channel(
    db: &mut Database,
    channel_id: u64,
    history: &Vec<RemoteMessage>,
    member_ids: &Vec<u64>,
    page_size: u8,
) -> (r: Result<SyncReport, DatabaseError>)
    requires
        old(db)@.wf(),
        history_for_channel(history@, channel_id),
        distinct_remote_ids(history@),
        members_known(old(db)@, member_ids@),
        stored_matches_history(old(db)@, channel_id, history@, member_ids@),
        foreign_ids_disjoint(old(db)@, channel_id, history@),
        upward_closed(old(db)@, channel_id, history@),
        channel_backfilled(old(db)@, channel_id) ==> catchup_ready(
            old(db)@,
            channel_id,
            history@,
        ),
        page_size >= 1,
        history@.len() + 2 <= u64::MAX,
    ensures
        final(db)@.wf(),
        r is Ok <==> old(db)@.has_channel(channel_id),
        r is Err ==> r == Err::<SyncReport, DatabaseError>(DatabaseError::NotFound) && final(db)@
            == old(db)@,
        r is Ok ==> all_history_stored(final(db)@, history@),
        r is Ok ==> stored_matches_history(final(db)@, channel_id, history@, member_ids@),
        r is Ok && all_history_stored(old(db)@, history@) ==> final(db)@.messages == old(
            db,
        )@.messages,
        r is Ok ==> channel_backfilled(final(db)@, channel_id),
        r matches Ok(rep) ==> (rep.marked_backfilled == !channel_backfilled(
            old(db)@,
            channel_id,
        )),
        r matches Ok(rep) ==> ((!channel_backfilled(old(db)@, channel_id) && !old(
            db,
        )@.channel_has_messages(channel_id)) ==> rep.backfill_fetches == (history@.len()
            + page_size - 1) / (page_size as int) + 1),
        r is Ok && history@.len() > 0 ==> exists|m: Message|
            final(db)@.is_newest_message(channel_id, m) && (forall|x: int|
                0 <= x < history@.len() ==> (#[trigger] history@[x]).id <= m.id) && remote_has_id(
                history@,
                m.id,
            ),
        r is Ok ==> final(db)@.messages.len() >= old(db)@.messages.len(),
        r is Ok ==> forall|i: int|
            0 <= i < old(db)@.messages.len() ==> #[trigger] final(db)@.messages[i] == old(
                db,
            )@.messages[i],
        r is Ok ==> forall|i: int|
            old(db)@.messages.len() <= i < final(db)@.messages.len() ==> exists|x: int|
                0 <= x < history@.len() && #[trigger] final(db)@.messages[i] == map_message_spec(
                    history@[x],
                    member_ids@,
                ),
        r is Ok ==> final(db)@.channels == old(db)@.channels || exists|i: int|
            0 <= i < old(db)@.channels.len() && (#[trigger] old(db)@.channels[i]).id == channel_id
                && final(db)@.channels == old(db)@.channels.update(
                i,
                (Channel { backfill_done: true, ..old(db)@.channels[i] }),
            ),
        final(db)@.guilds == old(db)@.guilds,
        final(db)@.users == old(db)@.users,
        final(db)@.emojis == old(db)@.emojis,
{
    let looked_up = db.get_channel(channel_id);
    let c = match looked_up {
        Err(e) => {
            return Err(DatabaseError::NotFound);
        },
        Ok(c) => c,
    };
    proof {
        // the looked-up record pins the stored flag
        let i = choose|i: int|
            0 <= i < db@.channels.len() && #[trigger] db@.channels[i] == c;
        if c.backfill_done {
            assert(channel_backfilled(db@, channel_id));
        } else {
            assert forall|j: int|
                0 <= j < db@.channels.len() && (#[trigger] db@.channels[j]).id == channel_id
                    implies !db@.channels[j].backfill_done by {
                if j != i {
                    assert(db@.channels[j].id != db@.channels[i].id);
                }
            };
        }
    }
    if !c.backfill_done {
        let ghost v0 = db@;
        let bf = backfill_channel(db, channel_id, history, member_ids, page_size);
        proof {
            let ci = choose|i: int|
                0 <= i < v0.channels.len() && (#[trigger] v0.channels[i]).id == channel_id
                    && db@.channels == v0.channels.update(
                    i,
                    (Channel { backfill_done: true, ..v0.channels[i] }),
                );
            assert(db@.channels[ci].id == channel_id && db@.channels[ci].backfill_done);
            assert(channel_backfilled(db@, channel_id));
            assert(db@.has_channel(channel_id));
            // sibling rows kept their records, so the foreign-key picture
            // and the history correspondence still hold
            assert forall|i: int, x: int|
                0 <= i < db@.messages.len() && 0 <= x < history@.len() && (
                #[trigger] db@.messages[i]).channel_id != channel_id implies db@.messages[i].id
                != (#[trigger] history@[x]).id by {
                if i < v0.messages.len() {
                    assert(db@.messages[i] == v0.messages[i]);
                } else {
                    let x2 = choose|x2: int|
                        0 <= x2 < history@.len() && #[trigger] db@.messages[i] == map_message_spec(
                            history@[x2],
                            member_ids@,
                        );
                }
            };
        }
        let ghost v1 = db@;
        // catch-up always requests maximum-size pages
        let cu = catchup_channel(db, channel_id, history, member_ids, u8::MAX);
        proof {
            assert(channel_backfilled(db@, channel_id));
            if all_history_stored(v0, history@) {
                assert(v1.messages == v0.messages);
                assert(all_history_stored(v1, history@));
            }
            // rows appended by either phase are images of the history
            assert forall|i: int|
                v0.messages.len() <= i < db@.messages.len() implies exists|x: int|
                0 <= x < history@.len() && #[trigger] db@.messages[i] == map_message_spec(
                    history@[x],
                    member_ids@,
                ) by {
                if i < v1.messages.len() {
                    assert(db@.messages[i] == v1.messages[i]);
                    let x = choose|x: int|
                        0 <= x < history@.len() && #[trigger] v1.messages[i] == map_message_spec(
                            history@[x],
                            member_ids@,
                        );
                    assert(db@.messages[i] == map_message_spec(history@[x], member_ids@));
                }
            };
        }
        Ok(SyncReport { backfill_fetches: bf, catchup_fetches: cu, marked_backfilled: true })
    } else {
        // catch-up always requests maximum-size pages
        let cu = catchup_channel(db, channel_id, history, member_ids, u8::MAX);
        proof {
            assert(channel_backfilled(db@, channel_id));
        }
        Ok(SyncReport { backfill_fetches: 0, catchup_fetches: cu, marked_backfilled: false })
    }
}

} // verus!
