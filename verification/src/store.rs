//! The status store: current status, bounded per-identity history, and a
//! bounded global feed, with substring search over the feed.

use vstd::prelude::*;
use vstd::utf8::encode_utf8;

use crate::text::byte_len;
use crate::text::contains_bytes;
use crate::text::contains_seq;
use crate::text::lemma_contains_empty;

verus! {

/// Most bytes a status message may hold.
pub const MAX_MESSAGE_BYTES: usize = 280;

/// Most records kept in one identity's history.
pub const HISTORY_CAP: usize = 10;

/// Most entries kept in the global feed.
pub const FEED_CAP: usize = 50;

/// The rejection of a message longer than [`MAX_MESSAGE_BYTES`].
#[derive(Debug, PartialEq, Eq, Structural)]
pub struct MessageTooLong;

/// A published status: the message text and the logical clock value it was
/// stamped with. Immutable once constructed.
#[derive(Debug, PartialEq, Eq)]
pub struct StatusWithTime {
    pub message: String,
    pub timestamp: u64,
}

/// The mathematical value of a [`StatusWithTime`].
pub ghost struct RecordView {
    pub message: Seq<char>,
    pub timestamp: u64,
}

impl View for StatusWithTime {
    type V = RecordView;

    open spec fn view(&self) -> RecordView {
        RecordView { message: self.message@, timestamp: self.timestamp }
    }
}

impl StatusWithTime {
    /// Builds a record stamping `message` with the logical clock value `now`.
    pub fn new(message: String, now: u64) -> (r: Self)
        ensures
            r@ == (RecordView { message: message@, timestamp: now }),
    {
        Self { message, timestamp: now }
    }
}

/// All the store keeps about one identity.
struct UserEntry {
    id: String,
    current: Option<StatusWithTime>,
    history: Vec<StatusWithTime>,
}

/// The record views of a sequence of records.
pub open spec fn views_of(s: Seq<StatusWithTime>) -> Seq<RecordView> {
    s.map_values(|r: StatusWithTime| r@)
}

/// The views of a sequence of feed entries.
pub open spec fn feed_views(s: Seq<(String, StatusWithTime)>) -> Seq<(Seq<char>, RecordView)> {
    s.map_values(|e: (String, StatusWithTime)| (e.0@, e.1@))
}

/// Appending to a log that keeps at most `cap` entries: the oldest entry
/// leaves when the log would outgrow its capacity.
pub open spec fn fifo_push<T>(s: Seq<T>, x: T, cap: nat) -> Seq<T> {
    if s.len() + 1 > cap {
        s.push(x).drop_first()
    } else {
        s.push(x)
    }
}

/// `sub` can be read off `sup` left to right, skipping entries but never
/// reordering them.
pub open spec fn is_subsequence_of<T>(sub: Seq<T>, sup: Seq<T>) -> bool
    decreases sub.len() + sup.len(),
{
    if sub.len() == 0 {
        true
    } else if sup.len() == 0 {
        false
    } else {
        ||| (sub.last() == sup.last() && is_subsequence_of(sub.drop_last(), sup.drop_last()))
        ||| is_subsequence_of(sub, sup.drop_last())
    }
}

/// Filtering a sequence yields a subsequence of it: entries are kept or
/// dropped, never reordered.
pub proof fn lemma_filter_is_subsequence<T>(s: Seq<T>, pred: spec_fn(T) -> bool)
    ensures
        is_subsequence_of(s.filter(pred), s),
    decreases s.len(),
{
    reveal(Seq::filter);
    if s.len() > 0 {
        lemma_filter_is_subsequence(s.drop_last(), pred);
        if pred(s.last()) {
            assert(s.filter(pred).drop_last() =~= s.drop_last().filter(pred));
        }
    }
}

/// The record that publishing `message` at logical time `now` constructs.
pub open spec fn record_of(message: Seq<char>, now: u64) -> RecordView {
    RecordView { message, timestamp: now }
}

/// The feed entry's message contains `keyword` as a contiguous run of bytes.
pub open spec fn entry_matches(e: (Seq<char>, RecordView), keyword: Seq<char>) -> bool {
    contains_seq(encode_utf8(e.1.message), encode_utf8(keyword))
}

/// [`entry_matches`] with the keyword fixed, as a predicate on feed entries.
pub open spec fn keyword_pred(keyword: Seq<char>) -> spec_fn((Seq<char>, RecordView)) -> bool {
    |e: (Seq<char>, RecordView)| entry_matches(e, keyword)
}

/// The first entry for `id` at or after position `i`, if any.
spec fn lookup_at(users: Seq<UserEntry>, id: Seq<char>, i: int) -> Option<UserEntry>
    decreases users.len() - i,
{
    if i < 0 || i >= users.len() {
        None
    } else if users[i].id@ == id {
        Some(users[i])
    } else {
        lookup_at(users, id, i + 1)
    }
}

/// The entry for `id`, if any.
spec fn lookup(users: Seq<UserEntry>, id: Seq<char>) -> Option<UserEntry> {
    lookup_at(users, id, 0)
}

/// The current status a user entry holds, as a view.
spec fn entry_current(u: UserEntry) -> Option<RecordView> {
    match u.current {
        Some(r) => Some(r@),
        None => None,
    }
}

/// One identity's state is within bounds and internally consistent.
spec fn entry_wf(u: UserEntry) -> bool {
    &&& u.history@.len() <= HISTORY_CAP
    &&& forall|j: int|
        0 <= j < u.history@.len() ==> byte_len(#[trigger] u.history@[j]@.message)
            <= MAX_MESSAGE_BYTES
    &&& match u.current {
        Some(r) => u.history@.len() > 0 && r@ == u.history@.last()@,
        None => true,
    }
}

/// The status store. It owns three indices over the published records: the
/// latest status per identity, a bounded per-identity history, and a bounded
/// global feed.
pub struct StatusMessage {
    users: Vec<UserEntry>,
    public_feed: Vec<(String, StatusWithTime)>,
}

impl StatusMessage {
    /// The latest status of `id`, if `id` has one.
    pub closed spec fn spec_current(self, id: Seq<char>) -> Option<RecordView> {
        match lookup(self.users@, id) {
            Some(u) => entry_current(u),
            None => None,
        }
    }

    /// The retained history of `id`, oldest first; empty if `id` never
    /// published.
    pub closed spec fn spec_history(self, id: Seq<char>) -> Seq<RecordView> {
        match lookup(self.users@, id) {
            Some(u) => views_of(u.history@),
            None => Seq::empty(),
        }
    }

    /// The retained global feed, oldest first.
    pub closed spec fn spec_feed(self) -> Seq<(Seq<char>, RecordView)> {
        feed_views(self.public_feed@)
    }

    /// The store's invariant: every index is within its bound, every retained
    /// message is within the length limit, and a present current status is
    /// the most recent history record of its identity.
    pub closed spec fn wf(self) -> bool {
        &&& forall|i: int| 0 <= i < self.users@.len() ==> entry_wf(#[trigger] self.users@[i])
        &&& self.public_feed@.len() <= FEED_CAP
        &&& forall|i: int|
            0 <= i < self.public_feed@.len() ==> byte_len(
                #[trigger] self.public_feed@[i].1@.message,
            ) <= MAX_MESSAGE_BYTES
    }
}

impl Default for StatusMessage {
    /// The empty store: no current statuses, no histories, an empty feed.
    fn default() -> (r: Self)
        ensures
            r.wf(),
            forall|id: Seq<char>| r.spec_current(id) is None,
            forall|id: Seq<char>| #[trigger] r.spec_history(id) == Seq::<RecordView>::empty(),
            r.spec_feed() == Seq::<(Seq<char>, RecordView)>::empty(),
    {
        let r = StatusMessage { users: Vec::new(), public_feed: Vec::new() };
        proof {
            assert(r.spec_feed() =~= Seq::<(Seq<char>, RecordView)>::empty());
        }
        r
    }
}

impl StatusMessage {
    /// The latest status of `account_id`: absent where the identity never
    /// set a status, or its status was deleted and never set again.
    pub fn get_status(&self, account_id: String) -> (r: Option<StatusWithTime>)
        ensures
            match r {
                Some(st) => self.spec_current(account_id@) == Some(st@),
                None => self.spec_current(account_id@) is None,
            },
    {
        match find_entry(&self.users, &account_id) {
            Some(i) => match &self.users[i].current {
                Some(st) => Some(StatusWithTime::new(st.message.clone(), st.timestamp)),
                None => None,
            },
            None => None,
        }
    }

    /// A copy of `account_id`'s retained history, oldest first; empty where
    /// the identity never published.
    pub fn get_status_history(&self, account_id: String) -> (r: Vec<StatusWithTime>)
        ensures
            views_of(r@) == self.spec_history(account_id@),
    {
        let mut out: Vec<StatusWithTime> = Vec::new();
        match find_entry(&self.users, &account_id) {
            Some(i) => {
                let entry_history = &self.users[i].history;
                let n: usize = entry_history.len();
                let mut j: usize = 0;
                while j < n
                    invariant
                        n == entry_history@.len(),
                        j <= n,
                        out@.len() == j,
                        forall|k: int| 0 <= k < j ==> (#[trigger] out@[k]@) == entry_history@[k]@,
                    decreases n - j,
                {
                    let st = &entry_history[j];
                    out.push(StatusWithTime::new(st.message.clone(), st.timestamp));
                    j += 1;
                }
                proof {
                    assert(views_of(out@) =~= views_of(entry_history@));
                }
            },
            None => {
                proof {
                    assert(views_of(out@) =~= Seq::<RecordView>::empty());
                }
            },
        }
        out
    }

    /// A copy of the retained global feed, oldest first.
    pub fn get_public_feed(&self) -> (r: Vec<(String, StatusWithTime)>)
        ensures
            feed_views(r@) == self.spec_feed(),
    {
        let mut out: Vec<(String, StatusWithTime)> = Vec::new();
        let n: usize = self.public_feed.len();
        let mut j: usize = 0;
        while j < n
            invariant
                n == self.public_feed@.len(),
                j <= n,
                out@.len() == j,
                forall|k: int|
                    0 <= k < j ==> (#[trigger] out@[k].0@) == self.public_feed@[k].0@
                        && out@[k].1@ == self.public_feed@[k].1@,
            decreases n - j,
        {
            let e = &self.public_feed[j];
            out.push((e.0.clone(), StatusWithTime::new(e.1.message.clone(), e.1.timestamp)));
            j += 1;
        }
        proof {
            assert(feed_views(out@) =~= feed_views(self.public_feed@));
        }
        out
    }

    /// Every feed entry whose message contains `keyword` as a contiguous
    /// byte substring, in feed order; the empty keyword matches every entry.
    pub fn search_statuses(&self, keyword: String) -> (r: Vec<(String, StatusWithTime)>)
        ensures
            feed_views(r@) == self.spec_feed().filter(keyword_pred(keyword@)),
    {
        let needle = keyword.as_str().as_bytes();
        let mut out: Vec<(String, StatusWithTime)> = Vec::new();
        let n: usize = self.public_feed.len();
        let mut j: usize = 0;
        proof {
            reveal(Seq::filter);
            assert(self.spec_feed().take(0) =~= Seq::<(Seq<char>, RecordView)>::empty());
        }
        while j < n
            invariant
                n == self.public_feed@.len(),
                j <= n,
                needle@ == encode_utf8(keyword@),
                feed_views(out@) == self.spec_feed().take(j as int).filter(
                    keyword_pred(keyword@),
                ),
            decreases n - j,
        {
            let e = &self.public_feed[j];
            let matched = contains_bytes(e.1.message.as_str().as_bytes(), needle);
            let ghost out0 = out@;
            if matched {
                out.push((e.0.clone(), StatusWithTime::new(e.1.message.clone(), e.1.timestamp)));
                proof {
                    assert(feed_views(out@) =~= feed_views(out0).push((e.0@, e.1@)));
                }
            }
            proof {
                let fv = self.spec_feed();
                let pred = keyword_pred(keyword@);
                reveal(Seq::filter);
                assert(fv.take(j + 1).drop_last() =~= fv.take(j as int));
                assert(fv.take(j + 1).last() == fv[j as int]);
                assert(fv[j as int].1.message == e.1.message@);
                assert(matched == pred(fv[j as int]));
            }
            j += 1;
        }
        proof {
            assert(self.spec_feed().take(n as int) =~= self.spec_feed());
        }
        out
    }

    /// Publishes `message` as `account_id`'s status at logical time `now`.
    /// A message over [`MAX_MESSAGE_BYTES`] bytes is rejected before any
    /// index is touched; otherwise the new record becomes the identity's
    /// current status and is appended to its history and to the global feed,
    /// each log evicting its oldest entry when over capacity.
    pub fn set_status(&mut self, account_id: String, message: String, now: u64) -> (result: Result<
        (),
        MessageTooLong,
    >)
        requires
            old(self).wf(),
        ensures
            final(self).wf(),
            (result is Ok) <==> byte_len(message@) <= MAX_MESSAGE_BYTES,
            result is Ok ==> final(self).spec_current(account_id@) == Some(
                record_of(message@, now),
            ),
            result is Ok ==> final(self).spec_history(account_id@) == fifo_push(
                old(self).spec_history(account_id@),
                record_of(message@, now),
                HISTORY_CAP as nat,
            ),
            result is Ok ==> final(self).spec_feed() == fifo_push(
                old(self).spec_feed(),
                (account_id@, record_of(message@, now)),
                FEED_CAP as nat,
            ),
            forall|id2: Seq<char>|
                id2 != account_id@ ==> final(self).spec_current(id2) == old(self).spec_current(
                    id2,
                ),
            forall|id2: Seq<char>|
                id2 != account_id@ ==> final(self).spec_history(id2) == old(self).spec_history(
                    id2,
                ),
            result is Err ==> final(self).spec_current(account_id@) == old(self).spec_current(
                account_id@,
            ),
            result is Err ==> final(self).spec_history(account_id@) == old(self).spec_history(
                account_id@,
            ),
            result is Err ==> final(self).spec_feed() == old(self).spec_feed(),
    {
        if message.as_str().as_bytes().len() > MAX_MESSAGE_BYTES {
            return Err(MessageTooLong);
        }
        let ghost aid = account_id@;
        let ghost rec = record_of(message@, now);

        let ghost feed0 = self.public_feed@;
        self.public_feed.push((account_id.clone(), StatusWithTime::new(message.clone(), now)));
        if self.public_feed.len() > FEED_CAP {
            self.public_feed.remove(0);
        }
        proof {
            assert(feed_views(self.public_feed@) =~= fifo_push(
                feed_views(feed0),
                (account_id@, rec),
                FEED_CAP as nat,
            ));
        }
        match find_entry(&self.users, &account_id) {
            Some(i) => {
                let ghost users0 = self.users@;
                let mut entry = self.users.remove(i);
                entry.current = Some(StatusWithTime::new(message.clone(), now));
                entry.history.push(StatusWithTime::new(message, now));
                if entry.history.len() > HISTORY_CAP {
                    entry.history.remove(0);
                }
                self.users.insert(i, entry);
                proof {
                    let e2 = self.users@[i as int];
                    assert(self.users@ =~= users0.update(i as int, e2));
                    lemma_lookup_at_update_first(users0, i as int, e2, account_id@, 0);
                    assert forall|id2: Seq<char>| id2 != account_id@ implies lookup(
                        self.users@,
                        id2,
                    ) == lookup(users0, id2) by {
                        lemma_lookup_at_update_other(users0, i as int, e2, id2, 0);
                    }
                    assert(views_of(e2.history@) =~= fifo_push(
                        views_of(users0[i as int].history@),
                        rec,
                        HISTORY_CAP as nat,
                    ));
                }
            },
            None => {
                let ghost users0 = self.users@;
                let mut history: Vec<StatusWithTime> = Vec::new();
                history.push(StatusWithTime::new(message.clone(), now));
                let entry = UserEntry {
                    id: account_id,
                    current: Some(StatusWithTime::new(message, now)),
                    history,
                };
                self.users.push(entry);
                proof {
                    let e2 = self.users@[users0.len() as int];
                    assert(self.users@ =~= users0.push(e2));
                    lemma_lookup_at_push_same(users0, e2, aid, 0);
                    assert forall|id2: Seq<char>| id2 != aid implies lookup(self.users@, id2)
                        == lookup(users0, id2) by {
                        lemma_lookup_at_push_other(users0, e2, id2, 0);
                    }
                    assert(views_of(e2.history@) =~= fifo_push(
                        Seq::<RecordView>::empty(),
                        rec,
                        HISTORY_CAP as nat,
                    ));
                }
            },
        }
        Ok(())
    }

    /// Withdraws `account_id`'s current status if it has one; a no-op, not an
    /// error, where it has none. History and feed are untouched either way.
    pub fn delete_status(&mut self, account_id: String)
        requires
            old(self).wf(),
        ensures
            final(self).wf(),
            final(self).spec_current(account_id@) is None,
            forall|id2: Seq<char>|
                id2 != account_id@ ==> final(self).spec_current(id2) == old(self).spec_current(
                    id2,
                ),
            forall|id2: Seq<char>|
                final(self).spec_history(id2) == old(self).spec_history(id2),
            final(self).spec_feed() == old(self).spec_feed(),
    {
        match find_entry(&self.users, &account_id) {
            Some(i) => {
                let ghost users0 = self.users@;
                let mut entry = self.users.remove(i);
                entry.current = None;
                self.users.insert(i, entry);
                proof {
                    let e2 = self.users@[i as int];
                    assert(self.users@ =~= users0.update(i as int, e2));
                    lemma_lookup_at_update_first(users0, i as int, e2, account_id@, 0);
                    assert forall|id2: Seq<char>| id2 != account_id@ implies lookup(
                        self.users@,
                        id2,
                    ) == lookup(users0, id2) by {
                        lemma_lookup_at_update_other(users0, i as int, e2, id2, 0);
                    }
                    assert(views_of(e2.history@) == views_of(users0[i as int].history@));
                }
            },
            None => {},
        }
    }
}

/// The position of the entry for `id`, if any; where it is found, it is the
/// first and only match.
fn find_entry(users: &Vec<UserEntry>, id: &String) -> (r: Option<usize>)
    ensures
        match r {
            Some(i) => {
                &&& i < users@.len()
                &&& users@[i as int].id@ == id@
                &&& lookup(users@, id@) == Some(users@[i as int])
                &&& forall|j: int| 0 <= j < i ==> (#[trigger] users@[j].id@) != id@
            },
            None => {
                &&& lookup(users@, id@) is None
                &&& forall|j: int| 0 <= j < users@.len() ==> (#[trigger] users@[j].id@) != id@
            },
        },
{
    let n: usize = users.len();
    let mut i: usize = 0;
    while i < n
        invariant
            n == users@.len(),
            i <= n,
            forall|j: int| 0 <= j < i ==> (#[trigger] users@[j].id@) != id@,
        decreases n - i,
    {
        if users[i].id == *id {
            proof {
                lemma_lookup_skips_mismatches(users@, id@, i as int);
            }
            return Some(i);
        }
        i += 1;
    }
    proof {
        lemma_lookup_skips_mismatches(users@, id@, n as int);
    }
    None
}

/// Where the first `i` entries do not match `id`, the lookup is decided at or
/// after position `i`.
proof fn lemma_lookup_skips_mismatches(users: Seq<UserEntry>, id: Seq<char>, i: int)
    requires
        0 <= i <= users.len(),
        forall|j: int| 0 <= j < i ==> (#[trigger] users[j].id@) != id,
    ensures
        lookup(users, id) == lookup_at(users, id, i),
    decreases i,
{
    if i > 0 {
        lemma_lookup_skips_mismatches_step(users, id, i - 1);
        lemma_lookup_skips_mismatches(users, id, i - 1);
    }
}

/// One step: a mismatch at `i` passes the lookup on to `i + 1`.
proof fn lemma_lookup_skips_mismatches_step(users: Seq<UserEntry>, id: Seq<char>, i: int)
    requires
        0 <= i < users.len(),
        users[i].id@ != id,
    ensures
        lookup_at(users, id, i) == lookup_at(users, id, i + 1),
{
}

/// Replacing the entry at the first match for `id` by another entry for `id`
/// makes that entry the lookup result for `id`.
proof fn lemma_lookup_at_update_first(
    users: Seq<UserEntry>,
    a: int,
    e: UserEntry,
    id: Seq<char>,
    i: int,
)
    requires
        0 <= i <= a < users.len(),
        users[a].id@ == id,
        e.id@ == id,
        forall|j: int| i <= j < a ==> (#[trigger] users[j].id@) != id,
    ensures
        lookup_at(users.update(a, e), id, i) == Some(e),
    decreases a - i,
{
    if i < a {
        lemma_lookup_at_update_first(users, a, e, id, i + 1);
    }
}

/// Replacing an entry by one for the same identity leaves the lookup of
/// every other identity unchanged.
proof fn lemma_lookup_at_update_other(
    users: Seq<UserEntry>,
    a: int,
    e: UserEntry,
    id2: Seq<char>,
    i: int,
)
    requires
        0 <= a < users.len(),
        e.id@ == users[a].id@,
        users[a].id@ != id2,
        0 <= i,
    ensures
        lookup_at(users.update(a, e), id2, i) == lookup_at(users, id2, i),
    decreases users.len() - i,
{
    if i < users.len() {
        lemma_lookup_at_update_other(users, a, e, id2, i + 1);
    }
}

/// Appending an entry for an identity the store does not hold makes that
/// entry the lookup result for it.
proof fn lemma_lookup_at_push_same(users: Seq<UserEntry>, e: UserEntry, id: Seq<char>, i: int)
    requires
        forall|j: int| 0 <= j < users.len() ==> (#[trigger] users[j].id@) != id,
        e.id@ == id,
        0 <= i <= users.len(),
    ensures
        lookup_at(users.push(e), id, i) == Some(e),
    decreases users.len() - i,
{
    if i < users.len() {
        lemma_lookup_at_push_same(users, e, id, i + 1);
    }
}

/// Appending an entry leaves the lookup of every other identity unchanged.
proof fn lemma_lookup_at_push_other(users: Seq<UserEntry>, e: UserEntry, id2: Seq<char>, i: int)
    requires
        e.id@ != id2,
        0 <= i,
    ensures
        lookup_at(users.push(e), id2, i) == lookup_at(users, id2, i),
    decreases users.len() + 1 - i,
{
    if i <= users.len() {
        lemma_lookup_at_push_other(users, e, id2, i + 1);
    }
}

/// A found entry is one of the store's entries.
proof fn lemma_lookup_at_mem(users: Seq<UserEntry>, id: Seq<char>, i: int)
    ensures
        match lookup_at(users, id, i) {
            Some(u) => exists|k: int| i <= k < users.len() && users[k] == u,
            None => true,
        },
    decreases users.len() - i,
{
    if 0 <= i < users.len() && users[i].id@ != id {
        lemma_lookup_at_mem(users, id, i + 1);
    }
}

/// Every identity's retained history stays within [`HISTORY_CAP`].
pub proof fn lemma_history_bounded(s: StatusMessage, id: Seq<char>)
    requires
        s.wf(),
    ensures
        s.spec_history(id).len() <= HISTORY_CAP,
{
    lemma_lookup_at_mem(s.users@, id, 0);
}

/// The retained feed stays within [`FEED_CAP`].
pub proof fn lemma_feed_bounded(s: StatusMessage)
    requires
        s.wf(),
    ensures
        s.spec_feed().len() <= FEED_CAP,
{
}

/// Every message the store retains, in any history or in the feed, stays
/// within [`MAX_MESSAGE_BYTES`].
pub proof fn lemma_messages_bounded(s: StatusMessage, id: Seq<char>)
    requires
        s.wf(),
    ensures
        forall|j: int|
            0 <= j < s.spec_history(id).len() ==> byte_len(
                #[trigger] s.spec_history(id)[j].message,
            ) <= MAX_MESSAGE_BYTES,
        forall|j: int|
            0 <= j < s.spec_feed().len() ==> byte_len(#[trigger] s.spec_feed()[j].1.message)
                <= MAX_MESSAGE_BYTES,
{
    lemma_lookup_at_mem(s.users@, id, 0);
}

/// A present current status is the most recent record of its identity's
/// retained history.
pub proof fn lemma_current_is_latest(s: StatusMessage, id: Seq<char>)
    requires
        s.wf(),
        s.spec_current(id) is Some,
    ensures
        s.spec_history(id).len() > 0,
        s.spec_current(id) == Some(s.spec_history(id).last()),
{
    lemma_lookup_at_mem(s.users@, id, 0);
}

/// Appending to a capped log keeps exactly the most recent entries: the
/// result is the longest suffix, within capacity, of the grown log, and the
/// newest entry is always retained.
pub proof fn lemma_fifo_push_window<T>(s: Seq<T>, x: T, cap: nat)
    requires
        s.len() <= cap,
        1 <= cap,
    ensures
        fifo_push(s, x, cap).len() == vstd::math::min(s.len() as int + 1, cap as int),
        fifo_push(s, x, cap) == s.push(x).skip(
            s.len() + 1 - vstd::math::min(s.len() as int + 1, cap as int),
        ),
        fifo_push(s, x, cap).last() == x,
{
    if s.len() + 1 > cap {
        assert(fifo_push(s, x, cap) =~= s.push(x).skip(1));
    } else {
        assert(fifo_push(s, x, cap) =~= s.push(x).skip(0));
    }
}

/// Searching with the empty keyword keeps the entire feed, unchanged and in
/// order.
pub proof fn lemma_search_empty_keeps_feed(feed: Seq<(Seq<char>, RecordView)>)
    ensures
        feed.filter(keyword_pred(Seq::<char>::empty())) == feed,
    decreases feed.len(),
{
    let pred = keyword_pred(Seq::<char>::empty());
    reveal(Seq::filter);
    if feed.len() > 0 {
        lemma_contains_empty(encode_utf8(feed.last().1.message));
        assert(encode_utf8(Seq::<char>::empty()) =~= Seq::<u8>::empty());
        lemma_search_empty_keeps_feed(feed.drop_last());
        assert(feed.drop_last().push(feed.last()) =~= feed);
    }
}

/// A search keeps exactly the matching entries: everything it returns
/// matches the keyword, every matching feed entry is returned, and nothing
/// is added.
pub proof fn lemma_search_matches_exactly(feed: Seq<(Seq<char>, RecordView)>, keyword: Seq<char>)
    ensures
        forall|i: int|
            0 <= i < feed.filter(keyword_pred(keyword)).len() ==> entry_matches(
                #[trigger] feed.filter(keyword_pred(keyword))[i],
                keyword,
            ),
        forall|i: int|
            0 <= i < feed.len() && entry_matches(#[trigger] feed[i], keyword) ==> feed.filter(
                keyword_pred(keyword),
            ).contains(feed[i]),
        feed.filter(keyword_pred(keyword)).len() <= feed.len(),
{
    let pred = keyword_pred(keyword);
    feed.lemma_filter_len(pred);
    assert forall|i: int| 0 <= i < feed.filter(pred).len() implies entry_matches(
        #[trigger] feed.filter(pred)[i],
        keyword,
    ) by {
        feed.lemma_filter_pred(pred, i);
    }
    assert forall|i: int| 0 <= i < feed.len() && entry_matches(#[trigger] feed[i], keyword) implies feed.filter(
        pred,
    ).contains(feed[i]) by {
        feed.lemma_filter_contains(pred, i);
    }
}

/// What a search returns is a subsequence of the feed: relative order is
/// preserved.
pub proof fn lemma_search_is_feed_subsequence(
    feed: Seq<(Seq<char>, RecordView)>,
    keyword: Seq<char>,
)
    ensures
        is_subsequence_of(feed.filter(keyword_pred(keyword)), feed),
{
    lemma_filter_is_subsequence(feed, keyword_pred(keyword));
}

} // verus!
