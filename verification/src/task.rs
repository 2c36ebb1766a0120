//! The resumable crawl state and its step machine.
//!
//! The crawl advances one unit of work at a time. A driver asks
//! [`Status::next_request`] what remote call the front of the queue needs,
//! performs the call, and hands the outcome to [`Status::step`], which is
//! the only place the state changes. Everything the traversal decides —
//! staleness of work items, pagination, discovery distance, the edge
//! relation, the hand-off to the lookup phase — happens inside `step`,
//! whose effect is pinned to the spec-level [`spec_step`].

use vstd::prelude::*;
use crate::twitter::Twitter;
use crate::encode::dec_digits;
use crate::encode::u64_to_dec;
use crate::encode::joined;
use crate::encode::lemma_joined_snoc;
use crate::encode::lemma_joined_ascii;
use crate::encode::lemma_dec_digits_ascii;
use crate::encode::chars_of_ascii;
use crate::encode::all_ascii;
use crate::encode::ascii_to_string;
use crate::encode::push_bytes;
use crate::twitter::CH_COMMA;

verus! {

use vstd::string::StringExecFns;

/// One discovered account: its display name (empty until looked up), its
/// depth from the root, and the ids of its shortest-path predecessors.
#[derive(Debug, PartialEq)]
pub struct User {
    pub screen_name: String,
    pub distance: i32,
    pub edge: Vec<u64>,
}

/// The ghost value of a `User`.
pub ghost struct UserModel {
    pub screen_name: Seq<char>,
    pub distance: int,
    pub edge: Seq<u64>,
}

impl View for User {
    type V = UserModel;

    open spec fn view(&self) -> UserModel {
        UserModel {
            screen_name: self.screen_name@,
            distance: self.distance as int,
            edge: self.edge@,
        }
    }
}

impl User {
    pub fn new_at(distance: i32) -> (r: User)
        ensures
            r@ == (UserModel { screen_name: Seq::<char>::empty(), distance: distance as int, edge: Seq::<u64>::empty() }),
    {
        User { screen_name: String::new(), distance, edge: Vec::new() }
    }
}

/// A pending fetch: the target account, the pagination cursor (`"-1"`
/// starts a listing), and the distance recorded for the target when the
/// item was enqueued.
#[derive(Debug, PartialEq)]
pub struct FetchStatus {
    pub id: u64,
    pub cursor: String,
    pub distance: i32,
}

/// A unit of pending work: list who the account follows, or who follows it.
#[derive(Debug, PartialEq)]
pub enum Fetch {
    Follow(FetchStatus),
    Follower(FetchStatus),
}

/// The ghost value of a `Fetch`.
pub ghost struct FetchModel {
    pub forward: bool,
    pub id: u64,
    pub cursor: Seq<char>,
    pub distance: int,
}

impl View for Fetch {
    type V = FetchModel;

    open spec fn view(&self) -> FetchModel {
        match self {
            Fetch::Follow(d) => FetchModel {
                forward: true,
                id: d.id,
                cursor: d.cursor@,
                distance: d.distance as int,
            },
            Fetch::Follower(d) => FetchModel {
                forward: false,
                id: d.id,
                cursor: d.cursor@,
                distance: d.distance as int,
            },
        }
    }
}

/// One record of a lookup response: the account, its display name, and
/// whether it restricts the root account.
#[derive(Debug, PartialEq)]
pub struct LookupEntry {
    pub id: u64,
    pub screen_name: String,
    pub blocked_by: bool,
}

/// The ghost value of a `LookupEntry`.
pub ghost struct EntryModel {
    pub id: u64,
    pub screen_name: Seq<char>,
    pub blocked_by: bool,
}

impl View for LookupEntry {
    type V = EntryModel;

    open spec fn view(&self) -> EntryModel {
        EntryModel { id: self.id, screen_name: self.screen_name@, blocked_by: self.blocked_by }
    }
}

/// What the outside world hands back for one unit of work.
#[derive(Debug, PartialEq)]
pub enum StepInput {
    /// No remote call was needed (a stale item is dropped, or the hand-off
    /// to the lookup phase happens).
    Nothing,
    /// One page of a forward or reverse listing.
    Page { next_cursor: String, ids: Vec<u64> },
    /// The listing was refused for this account; the item is dropped.
    Unauthorized,
    /// The records of one lookup batch.
    Looked { entries: Vec<LookupEntry> },
}

/// The ghost value of a `StepInput`.
pub ghost enum InputModel {
    Nothing,
    Page { next_cursor: Seq<char>, ids: Seq<u64> },
    Unauthorized,
    Looked { entries: Seq<EntryModel> },
}

impl View for StepInput {
    type V = InputModel;

    open spec fn view(&self) -> InputModel {
        match self {
            StepInput::Nothing => InputModel::Nothing,
            StepInput::Page { next_cursor, ids } => InputModel::Page {
                next_cursor: next_cursor@,
                ids: ids@,
            },
            StepInput::Unauthorized => InputModel::Unauthorized,
            StepInput::Looked { entries } => InputModel::Looked {
                entries: entries_view(entries@),
            },
        }
    }
}

/// What the machine needs next from the outside world.
#[derive(Debug, PartialEq)]
pub enum Request {
    /// No remote call: feed `StepInput::Nothing` to `step`.
    Nothing,
    /// List the accounts this account follows, from the given cursor.
    Forward { id: u64, cursor: String },
    /// List the accounts following this account, from the given cursor.
    Reverse { id: u64, cursor: String },
    /// Look up this batch of accounts.
    Lookup { ids: Vec<u64> },
    /// The crawl is complete.
    Done,
}

/// The ghost value of a `Request`.
pub ghost enum RequestModel {
    Nothing,
    Forward { id: u64, cursor: Seq<char> },
    Reverse { id: u64, cursor: Seq<char> },
    Lookup { ids: Seq<u64> },
    Done,
}

impl View for Request {
    type V = RequestModel;

    open spec fn view(&self) -> RequestModel {
        match self {
            Request::Nothing => RequestModel::Nothing,
            Request::Forward { id, cursor } => RequestModel::Forward { id: *id, cursor: cursor@ },
            Request::Reverse { id, cursor } => RequestModel::Reverse { id: *id, cursor: cursor@ },
            Request::Lookup { ids } => RequestModel::Lookup { ids: ids@ },
            Request::Done => RequestModel::Done,
        }
    }
}

/// The whole resumable snapshot of one crawl.
#[derive(Debug, PartialEq)]
pub struct Status {
    pub limit_distance: i32,
    pub my_id: u64,
    pub fetch_queue: std::collections::VecDeque<Fetch>,
    pub users: Vec<(u64, User)>,
    pub remaining_users: Vec<u64>,
    pub checked_users: Vec<u64>,
    pub blocked_users: Vec<u64>,
}

/// The ghost value of a `Status`.
pub ghost struct StatusModel {
    pub limit: int,
    pub my_id: u64,
    pub queue: Seq<FetchModel>,
    pub users: Seq<(u64, UserModel)>,
    pub remaining: Seq<u64>,
    pub checked: Seq<u64>,
    pub blocked: Seq<u64>,
}

/// The ghost values of the work queue.
pub open spec fn queue_view(s: Seq<Fetch>) -> Seq<FetchModel> {
    s.map_values(|f: Fetch| f@)
}

/// The ghost values of a lookup response.
pub open spec fn entries_view(s: Seq<LookupEntry>) -> Seq<EntryModel> {
    s.map_values(|e: LookupEntry| e@)
}

impl View for Status {
    type V = StatusModel;

    open spec fn view(&self) -> StatusModel {
        StatusModel {
            limit: self.limit_distance as int,
            my_id: self.my_id,
            queue: queue_view(self.fetch_queue@),
            users: users_view(self.users@),
            remaining: self.remaining_users@,
            checked: self.checked_users@,
            blocked: self.blocked_users@,
        }
    }
}

/// The index of an account in the user list, or -1 if it is unknown.
pub open spec fn find_idx(users: Seq<(u64, UserModel)>, id: u64) -> int
    decreases users.len(),
{
    if users.len() == 0 {
        -1
    } else if users[0].0 == id {
        0
    } else {
        let r = find_idx(users.subrange(1, users.len() as int), id);
        if r < 0 {
            -1
        } else {
            r + 1
        }
    }
}

/// Whether an account is already known.
pub open spec fn has_key(users: Seq<(u64, UserModel)>, id: u64) -> bool {
    find_idx(users, id) >= 0
}

/// The record of a known account.
pub open spec fn user_of(users: Seq<(u64, UserModel)>, id: u64) -> UserModel {
    users[find_idx(users, id)].1
}

pub proof fn lemma_find_idx(users: Seq<(u64, UserModel)>, id: u64)
    ensures
        -1 <= find_idx(users, id) < users.len(),
        find_idx(users, id) >= 0 ==> users[find_idx(users, id)].0 == id,
        find_idx(users, id) < 0 ==> forall|k: int|
            0 <= k < users.len() ==> (#[trigger] users[k]).0 != id,
        find_idx(users, id) >= 0 ==> forall|k: int|
            0 <= k < find_idx(users, id) ==> (#[trigger] users[k]).0 != id,
    decreases users.len(),
{
    if users.len() > 0 && users[0].0 != id {
        let tail = users.subrange(1, users.len() as int);
        lemma_find_idx(tail, id);
        assert(forall|k: int| 0 <= k < tail.len() ==> tail[k] == users[k + 1]);
        let r = find_idx(tail, id);
        if r < 0 {
            assert forall|k: int| 0 <= k < users.len() implies (#[trigger] users[k]).0 != id by {
                if k > 0 {
                    assert(tail[k - 1] == users[k]);
                }
            }
        } else {
            assert(find_idx(users, id) == r + 1);
            assert forall|k: int| 0 <= k < r + 1 implies (#[trigger] users[k]).0 != id by {
                if k > 0 {
                    assert(tail[k - 1] == users[k]);
                }
            }
        }
    }
}

/// A hit at the first matching position pins `find_idx` down.
pub proof fn lemma_find_idx_hit(users: Seq<(u64, UserModel)>, id: u64, i: int)
    requires
        0 <= i < users.len(),
        users[i].0 == id,
        forall|k: int| 0 <= k < i ==> (#[trigger] users[k]).0 != id,
    ensures
        find_idx(users, id) == i,
    decreases i,
{
    if i > 0 {
        let tail = users.subrange(1, users.len() as int);
        assert(forall|k: int| 0 <= k < tail.len() ==> tail[k] == users[k + 1]);
        lemma_find_idx_hit(tail, id, i - 1);
    }
}

/// No match anywhere means `find_idx` misses.
pub proof fn lemma_find_idx_miss(users: Seq<(u64, UserModel)>, id: u64)
    requires
        forall|k: int| 0 <= k < users.len() ==> (#[trigger] users[k]).0 != id,
    ensures
        find_idx(users, id) == -1,
{
    lemma_find_idx(users, id);
    if find_idx(users, id) >= 0 {
        assert(users[find_idx(users, id)].0 == id);
    }
}

/// Appending a record moves `find_idx` predictably: hits stay, and a miss
/// becomes a hit exactly on the new record's key.
pub proof fn lemma_find_idx_push(users: Seq<(u64, UserModel)>, p: (u64, UserModel), id: u64)
    ensures
        has_key(users, id) ==> find_idx(users.push(p), id) == find_idx(users, id),
        !has_key(users, id) && p.0 == id ==> find_idx(users.push(p), id) == users.len(),
        !has_key(users, id) && p.0 != id ==> find_idx(users.push(p), id) == -1,
    decreases users.len(),
{
    lemma_find_idx(users, id);
    let w = users.push(p);
    if has_key(users, id) {
        let i = find_idx(users, id);
        assert(w[i].0 == id);
        assert(forall|k: int| 0 <= k < i ==> (#[trigger] w[k]).0 == users[k].0);
        lemma_find_idx_hit(w, id, i);
    } else if p.0 == id {
        assert(w[users.len() as int].0 == id);
        assert(forall|k: int| 0 <= k < users.len() ==> (#[trigger] w[k]).0 == users[k].0);
        lemma_find_idx_hit(w, id, users.len() as int);
    } else {
        assert(forall|k: int| 0 <= k < w.len() ==> (#[trigger] w[k]).0 != id);
        lemma_find_idx_miss(w, id);
    }
}

/// Updating a record in place, keeping its key, leaves every `find_idx`
/// unchanged.
pub proof fn lemma_find_idx_update(
    users: Seq<(u64, UserModel)>,
    j: int,
    p: (u64, UserModel),
    id: u64,
)
    requires
        0 <= j < users.len(),
        p.0 == users[j].0,
    ensures
        find_idx(users.update(j, p), id) == find_idx(users, id),
{
    lemma_find_idx(users, id);
    let w = users.update(j, p);
    assert(forall|k: int| 0 <= k < w.len() ==> (#[trigger] w[k]).0 == users[k].0);
    if find_idx(users, id) >= 0 {
        let i = find_idx(users, id);
        assert(w[i].0 == id);
        lemma_find_idx_hit(w, id, i);
    } else {
        lemma_find_idx_miss(w, id);
    }
}

/// Find an account in the user list.
pub fn find_user_index(users: &Vec<(u64, User)>, id: u64) -> (r: Option<usize>)
    ensures
        match r {
            Some(i) => i < users@.len() && find_idx(users_view(users@), id) == i as int,
            None => find_idx(users_view(users@), id) == -1,
        },
{
    let ghost uv = users_view(users@);
    let mut i: usize = 0;
    while i < users.len()
        invariant
            uv == users_view(users@),
            i <= users@.len(),
            uv.len() == users@.len(),
            forall|k: int| 0 <= k < i ==> (#[trigger] uv[k]).0 != id,
        decreases users@.len() - i,
    {
        if users[i].0 == id {
            proof {
                assert(uv[i as int].0 == id);
                lemma_find_idx_hit(uv, id, i as int);
            }
            return Some(i);
        }
        proof {
            assert(uv[i as int].0 != id);
        }
        i = i + 1;
    }
    proof {
        lemma_find_idx_miss(uv, id);
    }
    None
}

/// The ghost values of the user list.
pub open spec fn users_view(s: Seq<(u64, User)>) -> Seq<(u64, UserModel)> {
    s.map_values(|p: (u64, User)| (p.0, p.1@))
}

/// The ids of the known accounts, in discovery order.
pub open spec fn user_keys(users: Seq<(u64, UserModel)>) -> Seq<u64> {
    users.map_values(|p: (u64, UserModel)| p.0)
}

/// The cursor that signals an exhausted listing.
pub open spec fn zero_cursor() -> Seq<char> {
    "0"@
}

/// The cursor that starts a listing.
pub open spec fn start_cursor() -> Seq<char> {
    "-1"@
}

/// How many ids one lookup batch takes from the front of the waiting list.
pub open spec fn batch_len(remaining: Seq<u64>) -> int {
    if remaining.len() < 100 {
        remaining.len() as int
    } else {
        100
    }
}

/// The front work item is stale: its target is unknown, or was recorded at
/// another distance than the item captured. Such an item is dropped.
pub open spec fn front_is_stale(s: StatusModel) -> bool
    recommends
        s.queue.len() > 0,
{
    !has_key(s.users, s.queue[0].id) || user_of(s.users, s.queue[0].id).distance
        != s.queue[0].distance
}

/// The traversal queue is drained, and the lookup phase has not started:
/// the next step copies every known id into the waiting list.
pub open spec fn handoff_pending(s: StatusModel) -> bool {
    s.queue.len() == 0 && s.checked.len() == 0 && s.remaining.len() == 0 && s.users.len() > 0
}

/// What the machine needs next: the remote call for the front work item,
/// a lookup batch, nothing (for a stale drop or the phase hand-off), or
/// nothing at all because the crawl is complete.
pub open spec fn spec_next_request(s: StatusModel) -> RequestModel {
    if s.queue.len() > 0 {
        let q = s.queue[0];
        if front_is_stale(s) {
            RequestModel::Nothing
        } else if q.forward {
            RequestModel::Forward { id: q.id, cursor: q.cursor }
        } else {
            RequestModel::Reverse { id: q.id, cursor: q.cursor }
        }
    } else if handoff_pending(s) {
        RequestModel::Nothing
    } else if s.remaining.len() > 0 {
        RequestModel::Lookup { ids: s.remaining.subrange(0, batch_len(s.remaining)) }
    } else {
        RequestModel::Done
    }
}

/// One returned id folded into the state: an unseen account is recorded at
/// the parent's distance plus one and, while under the distance limit,
/// queued for expansion at the back; the parent becomes a predecessor of
/// the id whenever the parent's captured distance is strictly smaller than
/// the id's recorded distance.
pub open spec fn apply_one(s: StatusModel, pid: u64, pdist: int, id: u64) -> StatusModel {
    let s1 = if !has_key(s.users, id) {
        let nu = UserModel {
            screen_name: Seq::<char>::empty(),
            distance: pdist + 1,
            edge: Seq::<u64>::empty(),
        };
        let queue2 = if pdist + 1 < s.limit {
            s.queue.push(
                FetchModel { forward: true, id: id, cursor: start_cursor(), distance: pdist + 1 },
            )
        } else {
            s.queue
        };
        StatusModel { users: s.users.push((id, nu)), queue: queue2, ..s }
    } else {
        s
    };
    let j = find_idx(s1.users, id);
    let u = s1.users[j].1;
    if pdist < u.distance && !u.edge.contains(pid) {
        StatusModel {
            users: s1.users.update(
                j,
                (id, UserModel { screen_name: u.screen_name, distance: u.distance, edge: u.edge.push(pid) }),
            ),
            ..s1
        }
    } else {
        s1
    }
}

/// A whole page of returned ids folded into the state, in order.
pub open spec fn apply_ids(s: StatusModel, pid: u64, pdist: int, ids: Seq<u64>) -> StatusModel
    decreases ids.len(),
{
    if ids.len() == 0 {
        s
    } else {
        apply_ids(apply_one(s, pid, pdist, ids[0]), pid, pdist, ids.subrange(1, ids.len() as int))
    }
}

/// One listing page folded into the state. First the continuation goes to
/// the front of the queue: the next page under the returned cursor, or —
/// once a forward listing is exhausted — the reverse listing from the
/// start. An exhausted reverse listing queues nothing. Then the returned
/// ids are folded in.
pub open spec fn apply_page(
    s: StatusModel,
    q: FetchModel,
    next: Seq<char>,
    ids: Seq<u64>,
) -> StatusModel {
    let s1 = if q.forward {
        if next == zero_cursor() {
            StatusModel {
                queue: seq![
                    FetchModel {
                        forward: false,
                        id: q.id,
                        cursor: start_cursor(),
                        distance: q.distance,
                    },
                ] + s.queue,
                ..s
            }
        } else {
            StatusModel {
                queue: seq![
                    FetchModel { forward: true, id: q.id, cursor: next, distance: q.distance },
                ] + s.queue,
                ..s
            }
        }
    } else {
        if next != zero_cursor() {
            StatusModel {
                queue: seq![
                    FetchModel { forward: false, id: q.id, cursor: next, distance: q.distance },
                ] + s.queue,
                ..s
            }
        } else {
            s
        }
    };
    apply_ids(s1, q.id, q.distance, ids)
}

/// The queue after the front-of-queue continuation of `apply_page`.
spec fn apply_page_front(s: StatusModel, q: FetchModel, next: Seq<char>) -> StatusModel {
    if q.forward {
        if next == zero_cursor() {
            StatusModel {
                queue: seq![
                    FetchModel {
                        forward: false,
                        id: q.id,
                        cursor: start_cursor(),
                        distance: q.distance,
                    },
                ] + s.queue,
                ..s
            }
        } else {
            StatusModel {
                queue: seq![
                    FetchModel { forward: true, id: q.id, cursor: next, distance: q.distance },
                ] + s.queue,
                ..s
            }
        }
    } else {
        if next != zero_cursor() {
            StatusModel {
                queue: seq![
                    FetchModel { forward: false, id: q.id, cursor: next, distance: q.distance },
                ] + s.queue,
                ..s
            }
        } else {
            s
        }
    }
}

/// One lookup record folded into the state: a known account gets its
/// display name, joins the looked-up list, and — if it restricts the root —
/// the restricting list. A record for an unknown account changes nothing.
pub open spec fn apply_entry(s: StatusModel, e: EntryModel) -> StatusModel {
    let j = find_idx(s.users, e.id);
    if j < 0 {
        s
    } else {
        let u = s.users[j].1;
        StatusModel {
            users: s.users.update(
                j,
                (e.id, UserModel { screen_name: e.screen_name, distance: u.distance, edge: u.edge }),
            ),
            checked: s.checked.push(e.id),
            blocked: if e.blocked_by {
                s.blocked.push(e.id)
            } else {
                s.blocked
            },
            ..s
        }
    }
}

/// A whole lookup response folded into the state, in order.
pub open spec fn apply_entries(s: StatusModel, entries: Seq<EntryModel>) -> StatusModel
    decreases entries.len(),
{
    if entries.len() == 0 {
        s
    } else {
        apply_entries(apply_entry(s, entries[0]), entries.subrange(1, entries.len() as int))
    }
}

/// One unit of work. With a nonempty queue the front item is consumed: a
/// stale item is dropped with no other effect, a refused listing drops the
/// item, and a page is folded in by `apply_page`. With a drained queue the
/// hand-off fills the waiting list from the known accounts, exactly once.
/// After that, each lookup batch is taken from the front of the waiting
/// list and its records folded in. An input that does not answer the
/// machine's current request changes nothing.
pub open spec fn spec_step(s: StatusModel, inp: InputModel) -> StatusModel {
    if s.queue.len() > 0 {
        let q = s.queue[0];
        let rest = StatusModel { queue: s.queue.subrange(1, s.queue.len() as int), ..s };
        if front_is_stale(s) {
            rest
        } else {
            match inp {
                InputModel::Unauthorized => rest,
                InputModel::Page { next_cursor, ids } => apply_page(rest, q, next_cursor, ids),
                _ => s,
            }
        }
    } else if handoff_pending(s) {
        StatusModel { remaining: user_keys(s.users), ..s }
    } else if s.remaining.len() > 0 {
        match inp {
            InputModel::Looked { entries } => apply_entries(
                StatusModel {
                    remaining: s.remaining.subrange(batch_len(s.remaining), s.remaining.len() as int),
                    ..s
                },
                entries,
            ),
            _ => s,
        }
    } else {
        s
    }
}

/// A whole sequence of work units folded into the state, in order.
pub open spec fn spec_run(s: StatusModel, inputs: Seq<InputModel>) -> StatusModel
    decreases inputs.len(),
{
    if inputs.len() == 0 {
        s
    } else {
        spec_run(spec_step(s, inputs[0]), inputs.subrange(1, inputs.len() as int))
    }
}

/// A fresh crawl: the root account at distance zero, and one forward fetch
/// for it from the start cursor.
pub open spec fn spec_seed(s: StatusModel, root: u64) -> StatusModel {
    StatusModel {
        my_id: root,
        users: seq![
            (
                root,
                UserModel {
                    screen_name: Seq::<char>::empty(),
                    distance: 0,
                    edge: Seq::<u64>::empty(),
                },
            ),
        ],
        queue: seq![
            FetchModel { forward: true, id: root, cursor: start_cursor(), distance: 0 },
        ],
        ..s
    }
}

/// Well-formedness of a crawl state: account ids are unique; distances are
/// never negative; every queued item carries a nonnegative distance under
/// the limit (the root's seed item carries zero whatever the limit); and
/// the edge relation points only from strictly nearer accounts, so it is
/// acyclic.
pub open spec fn wf(s: StatusModel) -> bool {
    &&& forall|i: int, j: int|
        0 <= i < j < s.users.len() ==> (#[trigger] s.users[i]).0 != (#[trigger] s.users[j]).0
    &&& forall|i: int| 0 <= i < s.users.len() ==> (#[trigger] s.users[i]).1.distance >= 0
    &&& forall|i: int|
        0 <= i < s.queue.len() ==> (#[trigger] s.queue[i]).distance >= 0 && (s.queue[i].distance
            == 0 || s.queue[i].distance < s.limit)
    &&& edge_dag(s.users)
}

/// The edge relation is a shortest-path tree fragment: every recorded
/// predecessor is a known account whose distance is strictly smaller.
pub open spec fn edge_dag(users: Seq<(u64, UserModel)>) -> bool {
    forall|i: int, k: int|
        0 <= i < users.len() && 0 <= k < users[i].1.edge.len() ==> has_key(
            users,
            #[trigger] users[i].1.edge[k],
        ) && user_of(users, users[i].1.edge[k]).distance < users[i].1.distance
}

/// What one folded id leaves untouched and what it may add: the account
/// book keeps every known account at its distance, the queue grows only at
/// the back, and well-formedness survives.
proof fn lemma_apply_one(s: StatusModel, pid: u64, pdist: int, id: u64)
    requires
        wf(s),
        has_key(s.users, pid),
        user_of(s.users, pid).distance == pdist,
        pdist >= 0,
    ensures
        wf(apply_one(s, pid, pdist, id)),
        apply_one(s, pid, pdist, id).limit == s.limit,
        apply_one(s, pid, pdist, id).my_id == s.my_id,
        apply_one(s, pid, pdist, id).remaining == s.remaining,
        apply_one(s, pid, pdist, id).checked == s.checked,
        apply_one(s, pid, pdist, id).blocked == s.blocked,
        apply_one(s, pid, pdist, id).queue.len() >= s.queue.len(),
        apply_one(s, pid, pdist, id).queue.subrange(0, s.queue.len() as int) == s.queue,
        forall|uid: u64|
            #[trigger] has_key(s.users, uid) ==> has_key(apply_one(s, pid, pdist, id).users, uid)
                && user_of(apply_one(s, pid, pdist, id).users, uid).distance == user_of(
                s.users,
                uid,
            ).distance,
{
    let r = apply_one(s, pid, pdist, id);
    lemma_find_idx(s.users, id);
    if !has_key(s.users, id) {
        let nu = UserModel {
            screen_name: Seq::<char>::empty(),
            distance: pdist + 1,
            edge: Seq::<u64>::empty(),
        };
        let users1 = s.users.push((id, nu));
        lemma_find_idx_push(s.users, (id, nu), id);
        let j = s.users.len() as int;
        assert(find_idx(users1, id) == j);
        assert(users1[j].1 == nu);
        let nu2 = UserModel {
            screen_name: nu.screen_name,
            distance: nu.distance,
            edge: nu.edge.push(pid),
        };
        assert(!nu.edge.contains(pid));
        let users2 = users1.update(j, (id, nu2));
        assert(r.users == users2);
        // every account known before keeps its place and distance
        assert forall|uid: u64| #[trigger] has_key(s.users, uid) implies has_key(r.users, uid)
            && user_of(r.users, uid).distance == user_of(s.users, uid).distance by {
            lemma_find_idx(s.users, uid);
            lemma_find_idx_push(s.users, (id, nu), uid);
            lemma_find_idx_update(users1, j, (id, nu2), uid);
            let i = find_idx(s.users, uid);
            assert(users2[i] == s.users[i]);
        }
        assert(has_key(r.users, pid) && user_of(r.users, pid).distance == pdist);
        lemma_find_idx_update(users1, j, (id, nu2), id);
        assert(find_idx(r.users, id) == j);
        assert(user_of(r.users, id).distance == pdist + 1);
        // keys stay unique: the new id was unknown
        assert forall|i1: int, i2: int|
            0 <= i1 < i2 < users2.len() implies (#[trigger] users2[i1]).0 != (
        #[trigger] users2[i2]).0 by {
            if i2 < j {
                assert(users2[i1] == s.users[i1] && users2[i2] == s.users[i2]);
            } else {
                assert(users2[i1] == s.users[i1]);
                assert(users2[i2].0 == id);
                assert(s.users[i1].0 != id);
            }
        }
        // distances stay nonnegative
        assert forall|i: int| 0 <= i < users2.len() implies (#[trigger] users2[i]).1.distance
            >= 0 by {
            if i < j {
                assert(users2[i] == s.users[i]);
            }
        }
        // the queue grows only at the back, with an item under the limit
        assert(r.queue.subrange(0, s.queue.len() as int) =~= s.queue);
        assert forall|i: int| 0 <= i < r.queue.len() implies (#[trigger] r.queue[i]).distance >= 0
            && (r.queue[i].distance == 0 || r.queue[i].distance < s.limit) by {
            if i < s.queue.len() {
                assert(r.queue[i] == s.queue[i]);
            }
        }
        // the edge relation still points from strictly nearer accounts
        assert forall|i: int, k: int|
            0 <= i < users2.len() && 0 <= k < users2[i].1.edge.len() implies has_key(
            users2,
            #[trigger] users2[i].1.edge[k],
        ) && user_of(users2, users2[i].1.edge[k]).distance < users2[i].1.distance by {
            if i < j {
                assert(users2[i] == s.users[i]);
                let t = s.users[i].1.edge[k];
                assert(has_key(s.users, t) && user_of(s.users, t).distance < s.users[i].1.distance);
            } else {
                assert(users2[i].1.edge[k] == pid);
                assert(user_of(users2, pid).distance == pdist);
                assert(users2[i].1.distance == pdist + 1);
            }
        }
    } else {
        let j = find_idx(s.users, id);
        assert(s.users[j].0 == id);
        let u = s.users[j].1;
        if pdist < u.distance && !u.edge.contains(pid) {
            let nu2 = UserModel {
                screen_name: u.screen_name,
                distance: u.distance,
                edge: u.edge.push(pid),
            };
            let users2 = s.users.update(j, (id, nu2));
            assert(r.users == users2);
            assert forall|uid: u64| #[trigger] has_key(s.users, uid) implies has_key(r.users, uid)
                && user_of(r.users, uid).distance == user_of(s.users, uid).distance by {
                lemma_find_idx(s.users, uid);
                lemma_find_idx_update(s.users, j, (id, nu2), uid);
                let i = find_idx(s.users, uid);
                if i != j {
                    assert(users2[i] == s.users[i]);
                } else {
                    assert(users2[j].1.distance == u.distance);
                }
            }
            assert forall|i1: int, i2: int|
                0 <= i1 < i2 < users2.len() implies (#[trigger] users2[i1]).0 != (
            #[trigger] users2[i2]).0 by {
                assert(users2[i1].0 == s.users[i1].0 && users2[i2].0 == s.users[i2].0);
            }
            assert forall|i: int| 0 <= i < users2.len() implies (#[trigger] users2[i]).1.distance
                >= 0 by {
                if i != j {
                    assert(users2[i] == s.users[i]);
                }
            }
            assert forall|i: int, k: int|
                0 <= i < users2.len() && 0 <= k < users2[i].1.edge.len() implies has_key(
                users2,
                #[trigger] users2[i].1.edge[k],
            ) && user_of(users2, users2[i].1.edge[k]).distance < users2[i].1.distance by {
                if i != j {
                    assert(users2[i] == s.users[i]);
                    let t = s.users[i].1.edge[k];
                    assert(has_key(s.users, t) && user_of(s.users, t).distance
                        < s.users[i].1.distance);
                } else {
                    if k < u.edge.len() {
                        assert(users2[i].1.edge[k] == u.edge[k]);
                        assert(has_key(s.users, u.edge[k]) && user_of(s.users, u.edge[k]).distance
                            < u.distance);
                    } else {
                        assert(users2[i].1.edge[k] == pid);
                        assert(user_of(users2, pid).distance == pdist);
                    }
                }
            }
            assert(r.queue.subrange(0, s.queue.len() as int) =~= s.queue);
        } else {
            assert(r == s);
            assert(r.queue.subrange(0, s.queue.len() as int) =~= s.queue);
        }
    }
}

/// The page fold keeps the same guarantees as each single id.
proof fn lemma_apply_ids(s: StatusModel, pid: u64, pdist: int, ids: Seq<u64>)
    requires
        wf(s),
        has_key(s.users, pid),
        user_of(s.users, pid).distance == pdist,
        pdist >= 0,
    ensures
        wf(apply_ids(s, pid, pdist, ids)),
        apply_ids(s, pid, pdist, ids).limit == s.limit,
        apply_ids(s, pid, pdist, ids).my_id == s.my_id,
        apply_ids(s, pid, pdist, ids).remaining == s.remaining,
        apply_ids(s, pid, pdist, ids).checked == s.checked,
        apply_ids(s, pid, pdist, ids).blocked == s.blocked,
        apply_ids(s, pid, pdist, ids).queue.len() >= s.queue.len(),
        apply_ids(s, pid, pdist, ids).queue.subrange(0, s.queue.len() as int) == s.queue,
        forall|uid: u64|
            #[trigger] has_key(s.users, uid) ==> has_key(apply_ids(s, pid, pdist, ids).users, uid)
                && user_of(apply_ids(s, pid, pdist, ids).users, uid).distance == user_of(
                s.users,
                uid,
            ).distance,
    decreases ids.len(),
{
    if ids.len() > 0 {
        lemma_apply_one(s, pid, pdist, ids[0]);
        let s1 = apply_one(s, pid, pdist, ids[0]);
        lemma_apply_ids(s1, pid, pdist, ids.subrange(1, ids.len() as int));
        let r = apply_ids(s, pid, pdist, ids);
        assert(r.queue.subrange(0, s.queue.len() as int) =~= s1.queue.subrange(
            0,
            s1.queue.len() as int,
        ).subrange(0, s.queue.len() as int));
        assert(r.queue.subrange(0, s.queue.len() as int) =~= s.queue);
    }
}

/// One lookup record keeps every account's place, distance and edges; only
/// a display name, the looked-up list and the restricting list can change.
proof fn lemma_apply_entry(s: StatusModel, e: EntryModel)
    requires
        wf(s),
    ensures
        wf(apply_entry(s, e)),
        apply_entry(s, e).limit == s.limit,
        apply_entry(s, e).my_id == s.my_id,
        apply_entry(s, e).remaining == s.remaining,
        apply_entry(s, e).queue == s.queue,
        apply_entry(s, e).checked.len() >= s.checked.len(),
        apply_entry(s, e).blocked.len() >= s.blocked.len(),
        forall|uid: u64|
            #[trigger] has_key(s.users, uid) ==> has_key(apply_entry(s, e).users, uid) && user_of(
                apply_entry(s, e).users,
                uid,
            ).distance == user_of(s.users, uid).distance,
{
    let r = apply_entry(s, e);
    let j = find_idx(s.users, e.id);
    lemma_find_idx(s.users, e.id);
    if j >= 0 {
        let u = s.users[j].1;
        let nu = UserModel { screen_name: e.screen_name, distance: u.distance, edge: u.edge };
        let users2 = s.users.update(j, (e.id, nu));
        assert(r.users == users2);
        assert forall|uid: u64| #[trigger] has_key(s.users, uid) implies has_key(r.users, uid)
            && user_of(r.users, uid).distance == user_of(s.users, uid).distance by {
            lemma_find_idx(s.users, uid);
            lemma_find_idx_update(s.users, j, (e.id, nu), uid);
            let i = find_idx(s.users, uid);
            if i != j {
                assert(users2[i] == s.users[i]);
            }
        }
        assert forall|i1: int, i2: int|
            0 <= i1 < i2 < users2.len() implies (#[trigger] users2[i1]).0 != (
        #[trigger] users2[i2]).0 by {
            assert(users2[i1].0 == s.users[i1].0 && users2[i2].0 == s.users[i2].0);
        }
        assert forall|i: int| 0 <= i < users2.len() implies (#[trigger] users2[i]).1.distance
            >= 0 by {
            if i != j {
                assert(users2[i] == s.users[i]);
            }
        }
        assert forall|i: int, k: int|
            0 <= i < users2.len() && 0 <= k < users2[i].1.edge.len() implies has_key(
            users2,
            #[trigger] users2[i].1.edge[k],
        ) && user_of(users2, users2[i].1.edge[k]).distance < users2[i].1.distance by {
            let t = users2[i].1.edge[k];
            assert(users2[i].1.edge == s.users[i].1.edge);
            assert(users2[i].1.distance == s.users[i].1.distance);
            assert(has_key(s.users, t) && user_of(s.users, t).distance < s.users[i].1.distance);
        }
    }
}

/// The lookup fold keeps the same guarantees as each single record.
proof fn lemma_apply_entries(s: StatusModel, entries: Seq<EntryModel>)
    requires
        wf(s),
    ensures
        wf(apply_entries(s, entries)),
        apply_entries(s, entries).limit == s.limit,
        apply_entries(s, entries).my_id == s.my_id,
        apply_entries(s, entries).remaining == s.remaining,
        apply_entries(s, entries).queue == s.queue,
        apply_entries(s, entries).checked.len() >= s.checked.len(),
        apply_entries(s, entries).blocked.len() >= s.blocked.len(),
        forall|uid: u64|
            #[trigger] has_key(s.users, uid) ==> has_key(apply_entries(s, entries).users, uid)
                && user_of(apply_entries(s, entries).users, uid).distance == user_of(
                s.users,
                uid,
            ).distance,
    decreases entries.len(),
{
    if entries.len() > 0 {
        lemma_apply_entry(s, entries[0]);
        lemma_apply_entries(
            apply_entry(s, entries[0]),
            entries.subrange(1, entries.len() as int),
        );
    }
}

/// One unit of work preserves well-formedness; in particular the edge
/// relation keeps pointing only from strictly nearer accounts.
pub proof fn lemma_step_preserves_wf(s: StatusModel, inp: InputModel)
    requires
        wf(s),
    ensures
        wf(spec_step(s, inp)),
{
    lemma_step_facts(s, inp);
}

/// A discovered account's distance is assigned once and never changes:
/// after any unit of work every account known before is still known, at
/// the same distance. The looked-up and restricting lists never shrink.
pub proof fn lemma_step_preserves_distance(s: StatusModel, inp: InputModel)
    requires
        wf(s),
    ensures
        forall|uid: u64|
            #[trigger] has_key(s.users, uid) ==> has_key(spec_step(s, inp).users, uid) && user_of(
                spec_step(s, inp).users,
                uid,
            ).distance == user_of(s.users, uid).distance,
        spec_step(s, inp).checked.len() >= s.checked.len(),
        spec_step(s, inp).blocked.len() >= s.blocked.len(),
{
    lemma_step_facts(s, inp);
}

/// The shared proof behind the step laws.
proof fn lemma_step_facts(s: StatusModel, inp: InputModel)
    requires
        wf(s),
    ensures
        wf(spec_step(s, inp)),
        spec_step(s, inp).limit == s.limit,
        spec_step(s, inp).my_id == s.my_id,
        spec_step(s, inp).checked.len() >= s.checked.len(),
        spec_step(s, inp).blocked.len() >= s.blocked.len(),
        forall|uid: u64|
            #[trigger] has_key(s.users, uid) ==> has_key(spec_step(s, inp).users, uid) && user_of(
                spec_step(s, inp).users,
                uid,
            ).distance == user_of(s.users, uid).distance,
{
    let r = spec_step(s, inp);
    if s.queue.len() > 0 {
        let q = s.queue[0];
        let rest = StatusModel { queue: s.queue.subrange(1, s.queue.len() as int), ..s };
        assert(wf(rest)) by {
            assert(forall|i: int|
                0 <= i < rest.queue.len() ==> rest.queue[i] == s.queue[i + 1]);
        }
        if front_is_stale(s) {
        } else {
            match inp {
                InputModel::Unauthorized => {},
                InputModel::Page { next_cursor, ids } => {
                    let s1 = apply_page_front(rest, q, next_cursor);
                    assert(wf(s1)) by {
                        if !(q.forward || next_cursor != zero_cursor()) {
                            assert(s1 == rest);
                        } else {
                            assert(s1.queue.len() == rest.queue.len() + 1);
                            assert(s1.queue[0].distance == q.distance);
                            assert forall|i: int|
                                0 <= i < s1.queue.len() implies (#[trigger] s1.queue[i]).distance
                                >= 0 && (s1.queue[i].distance == 0 || s1.queue[i].distance
                                < s1.limit) by {
                                if i > 0 {
                                    assert(s1.queue[i] == rest.queue[i - 1]);
                                }
                            }
                        }
                    }
                    assert(has_key(s1.users, q.id) && user_of(s1.users, q.id).distance
                        == q.distance);
                    assert(q.distance >= 0);
                    lemma_apply_ids(s1, q.id, q.distance, ids);
                    assert(r == apply_ids(s1, q.id, q.distance, ids));
                },
                _ => {},
            }
        }
    } else if handoff_pending(s) {
    } else if s.remaining.len() > 0 {
        match inp {
            InputModel::Looked { entries } => {
                let s1 = StatusModel {
                    remaining: s.remaining.subrange(
                        batch_len(s.remaining),
                        s.remaining.len() as int,
                    ),
                    ..s
                };
                lemma_apply_entries(s1, entries);
            },
            _ => {},
        }
    }
}

/// Well-formedness and assigned distances survive any whole run: every
/// account known at the start is known at the end, at the same distance.
pub proof fn lemma_run_preserves(s: StatusModel, inputs: Seq<InputModel>)
    requires
        wf(s),
    ensures
        wf(spec_run(s, inputs)),
        forall|uid: u64|
            #[trigger] has_key(s.users, uid) ==> has_key(spec_run(s, inputs).users, uid)
                && user_of(spec_run(s, inputs).users, uid).distance == user_of(
                s.users,
                uid,
            ).distance,
    decreases inputs.len(),
{
    if inputs.len() > 0 {
        lemma_step_facts(s, inputs[0]);
        lemma_run_preserves(spec_step(s, inputs[0]), inputs.subrange(1, inputs.len() as int));
    }
}

/// Running the crawl in one continuous pass leaves the same state as
/// stopping after any unit of work, keeping the snapshot, and resuming
/// with the rest: the fold splits at every point.
pub proof fn lemma_run_split(s: StatusModel, a: Seq<InputModel>, b: Seq<InputModel>)
    ensures
        spec_run(s, a + b) == spec_run(spec_run(s, a), b),
    decreases a.len(),
{
    if a.len() == 0 {
        assert(a + b =~= b);
    } else {
        assert((a + b)[0] == a[0]);
        assert((a + b).subrange(1, (a + b).len() as int) =~= a.subrange(1, a.len() as int) + b);
        lemma_run_split(spec_step(s, a[0]), a.subrange(1, a.len() as int), b);
    }
}

/// Once the lookup phase has begun, it has begun for good: across any
/// further sequence of work units the looked-up list never empties again,
/// so the hand-off of `lemma_handoff_once` can never recur.
pub proof fn lemma_lookup_phase_sticks(s: StatusModel, inputs: Seq<InputModel>)
    requires
        s.checked.len() > 0,
    ensures
        spec_run(s, inputs).checked.len() > 0,
    decreases inputs.len(),
{
    if inputs.len() > 0 {
        lemma_handoff_once(s, inputs[0]);
        lemma_lookup_phase_sticks(
            spec_step(s, inputs[0]),
            inputs.subrange(1, inputs.len() as int),
        );
    }
}

/// The waiting list is populated from the known accounts exactly at the
/// phase hand-off: only when the queue is drained, nothing has been looked
/// up yet and the list is empty does a step fill it — with every known id —
/// and once anything has been looked up, no later step refills it.
pub proof fn lemma_handoff_once(s: StatusModel, inp: InputModel)
    ensures
        spec_step(s, inp).remaining.len() > s.remaining.len() ==> handoff_pending(s)
            && spec_step(s, inp).remaining == user_keys(s.users),
        s.checked.len() > 0 ==> spec_step(s, inp).checked.len() > 0,
{
    let r = spec_step(s, inp);
    if s.queue.len() > 0 {
        let q = s.queue[0];
        let rest = StatusModel { queue: s.queue.subrange(1, s.queue.len() as int), ..s };
        if !front_is_stale(s) {
            match inp {
                InputModel::Page { next_cursor, ids } => {
                    let s1 = apply_page_front(rest, q, next_cursor);
                    lemma_apply_ids_frame(s1, q.id, q.distance, ids);
                },
                _ => {},
            }
        }
    } else if !handoff_pending(s) && s.remaining.len() > 0 {
        match inp {
            InputModel::Looked { entries } => {
                let s1 = StatusModel {
                    remaining: s.remaining.subrange(
                        batch_len(s.remaining),
                        s.remaining.len() as int,
                    ),
                    ..s
                };
                lemma_apply_entries_frame(s1, entries);
            },
            _ => {},
        }
    }
}

/// The page fold touches only the account book and the back of the queue.
proof fn lemma_apply_ids_frame(s: StatusModel, pid: u64, pdist: int, ids: Seq<u64>)
    ensures
        apply_ids(s, pid, pdist, ids).remaining == s.remaining,
        apply_ids(s, pid, pdist, ids).checked == s.checked,
        apply_ids(s, pid, pdist, ids).blocked == s.blocked,
        apply_ids(s, pid, pdist, ids).queue.len() >= s.queue.len(),
        apply_ids(s, pid, pdist, ids).queue.subrange(0, s.queue.len() as int) == s.queue,
    decreases ids.len(),
{
    if ids.len() > 0 {
        let s1 = apply_one(s, pid, pdist, ids[0]);
        assert(s1.remaining == s.remaining && s1.checked == s.checked && s1.blocked == s.blocked);
        assert(s1.queue.subrange(0, s.queue.len() as int) =~= s.queue);
        lemma_apply_ids_frame(s1, pid, pdist, ids.subrange(1, ids.len() as int));
        let r = apply_ids(s, pid, pdist, ids);
        assert(r.queue.subrange(0, s.queue.len() as int) =~= s1.queue.subrange(
            0,
            s1.queue.len() as int,
        ).subrange(0, s.queue.len() as int));
        assert(r.queue.subrange(0, s.queue.len() as int) =~= s.queue);
    }
}

/// The lookup fold touches only the account book and the two result lists,
/// and the looked-up list never shrinks.
proof fn lemma_apply_entries_frame(s: StatusModel, entries: Seq<EntryModel>)
    ensures
        apply_entries(s, entries).remaining == s.remaining,
        apply_entries(s, entries).queue == s.queue,
        apply_entries(s, entries).checked.len() >= s.checked.len(),
    decreases entries.len(),
{
    if entries.len() > 0 {
        lemma_apply_entries_frame(
            apply_entry(s, entries[0]),
            entries.subrange(1, entries.len() as int),
        );
    }
}

/// A listing page that is not the last one re-enqueues its continuation at
/// the very front of the queue, under the returned cursor, before every
/// other item; the items that were waiting keep their order behind it.
pub proof fn lemma_pagination_front(s: StatusModel, next: Seq<char>, ids: Seq<u64>)
    requires
        s.queue.len() > 0,
        !front_is_stale(s),
        next != zero_cursor(),
    ensures
        ({
            let r = spec_step(s, InputModel::Page { next_cursor: next, ids });
            let q = s.queue[0];
            &&& r.queue.len() >= s.queue.len()
            &&& r.queue[0] == (FetchModel {
                forward: q.forward,
                id: q.id,
                cursor: next,
                distance: q.distance,
            })
            &&& r.queue.subrange(1, s.queue.len() as int) == s.queue.subrange(
                1,
                s.queue.len() as int,
            )
        }),
{
    let q = s.queue[0];
    let rest = StatusModel { queue: s.queue.subrange(1, s.queue.len() as int), ..s };
    let s1 = apply_page_front(rest, q, next);
    lemma_apply_ids_frame(s1, q.id, q.distance, ids);
    let r = spec_step(s, InputModel::Page { next_cursor: next, ids });
    assert(s1.queue.subrange(0, s1.queue.len() as int) =~= s1.queue);
    assert(r.queue.subrange(0, s1.queue.len() as int) == s1.queue);
    assert(r.queue[0] == s1.queue[0]);
    assert(s1.queue.len() == s.queue.len());
    assert forall|j: int| 1 <= j < s.queue.len() implies r.queue[j] == s.queue[j] by {
        assert(r.queue.subrange(0, s1.queue.len() as int)[j] == s1.queue[j]);
        assert(s1.queue[j] == rest.queue[j - 1]);
        assert(rest.queue[j - 1] == s.queue[j]);
    }
    assert(r.queue.subrange(1, s.queue.len() as int) =~= s.queue.subrange(
        1,
        s.queue.len() as int,
    ));
}

fn cursor_is_zero(c: &String) -> (r: bool)
    ensures
        r == (c@ == zero_cursor()),
{
    let zero: String = "0".to_owned();
    c.eq(&zero)
}

fn start_cursor_string() -> (r: String)
    ensures
        r@ == start_cursor(),
{
    "-1".to_owned()
}

fn vec_contains(v: &Vec<u64>, x: u64) -> (r: bool)
    ensures
        r == v@.contains(x),
{
    let mut i: usize = 0;
    while i < v.len()
        invariant
            i <= v@.len(),
            forall|k: int| 0 <= k < i ==> v@[k] != x,
        decreases v@.len() - i,
    {
        if v[i] == x {
            proof {
                assert(v@[i as int] == x);
            }
            return true;
        }
        i = i + 1;
    }
    proof {
        assert(!v@.contains(x));
    }
    false
}

impl Status {
    /// A blank snapshot for a crawl bounded by the given distance.
    pub fn new(limit_distance: i32) -> (r: Status)
        ensures
            r@.limit == limit_distance as int,
            r@.my_id == 0,
            r@.queue == Seq::<FetchModel>::empty(),
            r@.users == Seq::<(u64, UserModel)>::empty(),
            r@.remaining == Seq::<u64>::empty(),
            r@.checked == Seq::<u64>::empty(),
            r@.blocked == Seq::<u64>::empty(),
            wf(r@),
    {
        let r = Status {
            limit_distance,
            my_id: 0,
            fetch_queue: std::collections::VecDeque::new(),
            users: Vec::new(),
            remaining_users: Vec::new(),
            checked_users: Vec::new(),
            blocked_users: Vec::new(),
        };
        proof {
            assert(r@.queue =~= Seq::<FetchModel>::empty());
            assert(r@.users =~= Seq::<(u64, UserModel)>::empty());
        }
        r
    }

    /// Seed a fresh crawl: the verified root account enters the book at
    /// distance zero, with one forward fetch queued for it.
    pub fn seed(&mut self, my_id: u64)
        requires
            old(self)@.users.len() == 0,
            old(self)@.queue.len() == 0,
        ensures
            final(self)@ == spec_seed(old(self)@, my_id),
            wf(final(self)@),
    {
        self.my_id = my_id;
        self.users.push((my_id, User::new_at(0)));
        self.fetch_queue.push_back(
            Fetch::Follow(FetchStatus { id: my_id, cursor: start_cursor_string(), distance: 0 }),
        );
        proof {
            let r = self@;
            let t = spec_seed(old(self)@, my_id);
            assert(r.users =~= t.users);
            assert(r.queue =~= t.queue);
            assert(r == t);
            assert forall|i: int, k: int|
                0 <= i < r.users.len() && 0 <= k < r.users[i].1.edge.len() implies has_key(
                r.users,
                #[trigger] r.users[i].1.edge[k],
            ) && user_of(r.users, r.users[i].1.edge[k]).distance < r.users[i].1.distance by {
                assert(r.users[i].1.edge.len() == 0);
            }
            assert(wf(r));
        }
    }

    /// What the next unit of work needs from the remote API.
    pub fn next_request(&self) -> (r: Request)
        ensures
            r@ == spec_next_request(self@),
    {
        if self.fetch_queue.len() > 0 {
            let front = &self.fetch_queue[0];
            let (forward, id, distance): (bool, u64, i32) = match front {
                Fetch::Follow(d) => (true, d.id, d.distance),
                Fetch::Follower(d) => (false, d.id, d.distance),
            };
            proof {
                assert(self@.queue[0] == front@);
            }
            match find_user_index(&self.users, id) {
                None => {
                    return Request::Nothing;
                },
                Some(j) => {
                    if self.users[j].1.distance != distance {
                        proof {
                            assert(user_of(self@.users, id) == self@.users[j as int].1);
                        }
                        return Request::Nothing;
                    }
                    proof {
                        assert(user_of(self@.users, id) == self@.users[j as int].1);
                    }
                    let cursor = match front {
                        Fetch::Follow(d) => d.cursor.clone(),
                        Fetch::Follower(d) => d.cursor.clone(),
                    };
                    if forward {
                        return Request::Forward { id, cursor };
                    } else {
                        return Request::Reverse { id, cursor };
                    }
                },
            }
        } else if self.checked_users.len() == 0 && self.remaining_users.len() == 0
            && self.users.len() > 0 {
            Request::Nothing
        } else if self.remaining_users.len() > 0 {
            let n: usize = if self.remaining_users.len() < 100 {
                self.remaining_users.len()
            } else {
                100
            };
            let mut ids: Vec<u64> = Vec::new();
            let mut k: usize = 0;
            while k < n
                invariant
                    n <= self.remaining_users@.len(),
                    k <= n,
                    ids@.len() == k,
                    forall|j: int| 0 <= j < k ==> ids@[j] == self.remaining_users@[j],
                decreases n - k,
            {
                ids.push(self.remaining_users[k]);
                k = k + 1;
            }
            proof {
                assert(ids@ =~= self@.remaining.subrange(0, batch_len(self@.remaining)));
            }
            Request::Lookup { ids }
        } else {
            Request::Done
        }
    }

    /// Fold one returned id into the state.
    fn apply_one_exec(&mut self, pid: u64, pdist: i32, id: u64)
        requires
            pdist < i32::MAX,
        ensures
            final(self)@ == apply_one(old(self)@, pid, pdist as int, id),
    {
        let ghost s0 = self@;
        let j: usize = match find_user_index(&self.users, id) {
            None => {
                let nd = pdist + 1;
                self.users.push((id, User::new_at(nd)));
                if nd < self.limit_distance {
                    self.fetch_queue.push_back(
                        Fetch::Follow(
                            FetchStatus { id, cursor: start_cursor_string(), distance: nd },
                        ),
                    );
                }
                proof {
                    let nu = UserModel {
                        screen_name: Seq::<char>::empty(),
                        distance: pdist as int + 1,
                        edge: Seq::<u64>::empty(),
                    };
                    assert(self@.users =~= s0.users.push((id, nu)));
                    if pdist as int + 1 < s0.limit {
                        assert(self@.queue =~= s0.queue.push(
                            FetchModel {
                                forward: true,
                                id: id,
                                cursor: start_cursor(),
                                distance: pdist as int + 1,
                            },
                        ));
                    } else {
                        assert(self@.queue =~= s0.queue);
                    }
                    lemma_find_idx_push(s0.users, (id, nu), id);
                    assert(find_idx(self@.users, id) == s0.users.len());
                }
                self.users.len() - 1
            },
            Some(j) => j,
        };
        let ghost s1 = self@;
        proof {
            assert(find_idx(s1.users, id) == j as int);
            lemma_find_idx(s1.users, id);
            assert(s1.users[j as int].0 == id);
            assert(self.users@[j as int].0 == id);
        }
        let target_distance = self.users[j].1.distance;
        if pdist < target_distance {
            let already = vec_contains(&self.users[j].1.edge, pid);
            if !already {
                let pair = self.users.remove(j);
                let uid = pair.0;
                let mut u = pair.1;
                u.edge.push(pid);
                self.users.insert(j, (uid, u));
                proof {
                    let um = s1.users[j as int].1;
                    let nu = UserModel {
                        screen_name: um.screen_name,
                        distance: um.distance,
                        edge: um.edge.push(pid),
                    };
                    assert(self@.users =~= s1.users.update(j as int, (id, nu)));
                    assert(self@.queue =~= s1.queue);
                    assert(self@ == apply_one(s0, pid, pdist as int, id));
                }
            } else {
                proof {
                    assert(self@ == apply_one(s0, pid, pdist as int, id));
                }
            }
        } else {
            proof {
                assert(self@ == apply_one(s0, pid, pdist as int, id));
            }
        }
    }

    /// Fold one lookup record into the state.
    fn apply_entry_exec(&mut self, e: LookupEntry)
        ensures
            final(self)@ == apply_entry(old(self)@, e@),
    {
        let ghost s0 = self@;
        let ghost em = e@;
        let LookupEntry { id, screen_name, blocked_by } = e;
        match find_user_index(&self.users, id) {
            None => {
                proof {
                    assert(self@ == apply_entry(s0, em));
                }
            },
            Some(j) => {
                proof {
                    lemma_find_idx(s0.users, id);
                    assert(s0.users[j as int].0 == id);
                }
                let pair = self.users.remove(j);
                let uid = pair.0;
                let u = pair.1;
                let nu = User { screen_name, distance: u.distance, edge: u.edge };
                self.users.insert(j, (uid, nu));
                self.checked_users.push(id);
                if blocked_by {
                    self.blocked_users.push(id);
                }
                proof {
                    let um = s0.users[j as int].1;
                    let num = UserModel {
                        screen_name: em.screen_name,
                        distance: um.distance,
                        edge: um.edge,
                    };
                    assert(self@.users =~= s0.users.update(j as int, (id, num)));
                    assert(self@.checked =~= s0.checked.push(id));
                    if blocked_by {
                        assert(self@.blocked =~= s0.blocked.push(id));
                    } else {
                        assert(self@.blocked =~= s0.blocked);
                    }
                    assert(self@ == apply_entry(s0, em));
                }
            },
        }
    }

    /// One unit of work: consume the front work item with the outcome the
    /// driver obtained for it, perform the phase hand-off, or fold in one
    /// lookup batch. The effect is exactly `spec_step`.
    pub fn step(&mut self, input: StepInput)
        requires
            wf(old(self)@),
        ensures
            final(self)@ == spec_step(old(self)@, input@),
            wf(final(self)@),
    {
        let ghost s0 = self@;
        let ghost inp = input@;
        proof {
            lemma_step_preserves_wf(s0, inp);
        }
        if self.fetch_queue.len() > 0 {
            let (forward, id, distance): (bool, u64, i32) = match &self.fetch_queue[0] {
                Fetch::Follow(d) => (true, d.id, d.distance),
                Fetch::Follower(d) => (false, d.id, d.distance),
            };
            proof {
                assert(s0.queue[0] == self.fetch_queue@[0]@);
            }
            let stale: bool = match find_user_index(&self.users, id) {
                None => true,
                Some(j) => {
                    proof {
                        assert(user_of(s0.users, id) == s0.users[j as int].1);
                    }
                    self.users[j].1.distance != distance
                },
            };
            proof {
                assert(stale == front_is_stale(s0));
            }
            if stale {
                let _ = self.fetch_queue.pop_front();
                proof {
                    assert(self@.queue =~= s0.queue.subrange(1, s0.queue.len() as int));
                    assert(self@ == spec_step(s0, inp));
                }
                return ;
            }
            match input {
                StepInput::Unauthorized => {
                    let _ = self.fetch_queue.pop_front();
                    proof {
                        assert(self@.queue =~= s0.queue.subrange(1, s0.queue.len() as int));
                        assert(self@ == spec_step(s0, inp));
                    }
                },
                StepInput::Page { next_cursor, ids } => {
                    let ghost q = s0.queue[0];
                    let ghost nc = next_cursor@;
                    let _ = self.fetch_queue.pop_front();
                    let ghost rest = StatusModel {
                        queue: s0.queue.subrange(1, s0.queue.len() as int),
                        ..s0
                    };
                    proof {
                        assert(self@.queue =~= rest.queue);
                        assert(self@ == rest);
                    }
                    if forward {
                        if cursor_is_zero(&next_cursor) {
                            self.fetch_queue.push_front(
                                Fetch::Follower(
                                    FetchStatus {
                                        id,
                                        cursor: start_cursor_string(),
                                        distance,
                                    },
                                ),
                            );
                        } else {
                            self.fetch_queue.push_front(
                                Fetch::Follow(FetchStatus { id, cursor: next_cursor, distance }),
                            );
                        }
                    } else {
                        if !cursor_is_zero(&next_cursor) {
                            self.fetch_queue.push_front(
                                Fetch::Follower(FetchStatus { id, cursor: next_cursor, distance }),
                            );
                        }
                    }
                    proof {
                        assert(self@.queue =~= apply_page_front(rest, q, nc).queue);
                        assert(self@ == apply_page_front(rest, q, nc));
                        assert(distance < i32::MAX);
                    }
                    let ghost pf = apply_page_front(rest, q, nc);
                    proof {
                        assert(ids@.subrange(0, ids@.len() as int) =~= ids@);
                    }
                    let mut k: usize = 0;
                    while k < ids.len()
                        invariant
                            k <= ids@.len(),
                            distance < i32::MAX,
                            apply_ids(pf, id, distance as int, ids@) == apply_ids(
                                self@,
                                id,
                                distance as int,
                                ids@.subrange(k as int, ids@.len() as int),
                            ),
                        decreases ids@.len() - k,
                    {
                        let ghost before = self@;
                        let ghost rem = ids@.subrange(k as int, ids@.len() as int);
                        self.apply_one_exec(id, distance, ids[k]);
                        proof {
                            assert(rem[0] == ids@[k as int]);
                            assert(rem.subrange(1, rem.len() as int) =~= ids@.subrange(
                                k + 1,
                                ids@.len() as int,
                            ));
                            assert(apply_ids(before, id, distance as int, rem) == apply_ids(
                                self@,
                                id,
                                distance as int,
                                ids@.subrange(k + 1, ids@.len() as int),
                            ));
                        }
                        k = k + 1;
                    }
                    proof {
                        assert(ids@.subrange(ids@.len() as int, ids@.len() as int).len() == 0);
                        assert(apply_ids(pf, id, distance as int, ids@) == self@);
                        assert(spec_step(s0, inp) == apply_page(rest, q, nc, ids@));
                        assert(apply_page(rest, q, nc, ids@) == apply_ids(
                            pf,
                            q.id,
                            q.distance,
                            ids@,
                        ));
                        assert(self@ == spec_step(s0, inp));
                    }
                },
                _ => {
                    proof {
                        assert(self@ == spec_step(s0, inp));
                    }
                },
            }
        } else if self.checked_users.len() == 0 && self.remaining_users.len() == 0
            && self.users.len() > 0 {
            let mut keys: Vec<u64> = Vec::new();
            let mut k: usize = 0;
            while k < self.users.len()
                invariant
                    k <= self.users@.len(),
                    keys@.len() == k,
                    forall|j: int| 0 <= j < k ==> keys@[j] == self.users@[j].0,
                decreases self.users@.len() - k,
            {
                keys.push(self.users[k].0);
                k = k + 1;
            }
            proof {
                assert(keys@ =~= user_keys(s0.users));
            }
            self.remaining_users = keys;
            proof {
                assert(self@ == spec_step(s0, inp));
            }
        } else if self.remaining_users.len() > 0 {
            match input {
                StepInput::Looked { entries } => {
                    let n: usize = if self.remaining_users.len() < 100 {
                        self.remaining_users.len()
                    } else {
                        100
                    };
                    let tail = self.remaining_users.split_off(n);
                    self.remaining_users = tail;
                    let ghost s1 = self@;
                    proof {
                        assert(self@.remaining =~= s0.remaining.subrange(
                            batch_len(s0.remaining),
                            s0.remaining.len() as int,
                        ));
                        assert(spec_step(s0, inp) == apply_entries(s1, entries_view(entries@)));
                    }
                    let mut entries = entries;
                    while entries.len() > 0
                        invariant
                            spec_step(s0, inp) == apply_entries(self@, entries_view(entries@)),
                        decreases entries@.len(),
                    {
                        let ghost before = self@;
                        let ghost evs = entries_view(entries@);
                        let e = entries.remove(0);
                        proof {
                            assert(evs[0] == e@);
                            assert(entries_view(entries@) =~= evs.subrange(1, evs.len() as int));
                        }
                        self.apply_entry_exec(e);
                        proof {
                            assert(apply_entries(before, evs) == apply_entries(
                                self@,
                                entries_view(entries@),
                            ));
                        }
                    }
                    proof {
                        assert(entries_view(entries@).len() == 0);
                        assert(self@ == spec_step(s0, inp));
                    }
                },
                _ => {
                    proof {
                        assert(self@ == spec_step(s0, inp));
                    }
                },
            }
        } else {
            proof {
                assert(self@ == spec_step(s0, inp));
            }
        }
    }
}

/// The ghost values of a sequence of work-unit outcomes.
pub open spec fn inputs_view(s: Seq<StepInput>) -> Seq<InputModel> {
    s.map_values(|x: StepInput| x@)
}

impl Status {
    /// Fold a whole sequence of work-unit outcomes into the state, in
    /// order: exactly `spec_run`.
    pub fn run(&mut self, inputs: Vec<StepInput>) -> (done: bool)
        requires
            wf(old(self)@),
        ensures
            final(self)@ == spec_run(old(self)@, inputs_view(inputs@)),
            wf(final(self)@),
            done == (spec_next_request(final(self)@) is Done),
    {
        let ghost s0 = self@;
        let ghost all = inputs_view(inputs@);
        let mut v = inputs;
        while v.len() > 0
            invariant
                wf(self@),
                spec_run(s0, all) == spec_run(self@, inputs_view(v@)),
            decreases v@.len(),
        {
            let ghost before = self@;
            let ghost evs = inputs_view(v@);
            let i = v.remove(0);
            proof {
                assert(evs[0] == i@);
                assert(inputs_view(v@) =~= evs.subrange(1, evs.len() as int));
            }
            self.step(i);
            proof {
                assert(spec_run(before, evs) == spec_run(self@, inputs_view(v@)));
            }
        }
        proof {
            assert(inputs_view(v@).len() == 0);
            assert(spec_run(s0, all) == self@);
        }
        let r = self.next_request();
        match r {
            Request::Done => true,
            _ => false,
        }
    }
}

/// One report line: an account and its indentation depth.
#[derive(Debug, PartialEq)]
pub struct ReportLine {
    pub id: u64,
    pub screen_name: String,
    pub depth: usize,
}

/// The ghost value of a `ReportLine`.
pub ghost struct LineModel {
    pub id: u64,
    pub screen_name: Seq<char>,
    pub depth: int,
}

impl View for ReportLine {
    type V = LineModel;

    open spec fn view(&self) -> LineModel {
        LineModel { id: self.id, screen_name: self.screen_name@, depth: self.depth as int }
    }
}

/// The ghost values of a report.
pub open spec fn lines_view(s: Seq<ReportLine>) -> Seq<LineModel> {
    s.map_values(|l: ReportLine| l@)
}

/// The report subtree under one account: its own line, then — one level
/// deeper — the subtree of each recorded predecessor whose distance is
/// strictly smaller (the defensive guard that makes the walk terminate
/// even on a state the crawler did not build).
pub open spec fn report_user(users: Seq<(u64, UserModel)>, id: u64, depth: int) -> Seq<LineModel>
    decreases user_of(users, id).distance, 1int, 0int,
{
    if !has_key(users, id) || user_of(users, id).distance < 0 {
        Seq::empty()
    } else {
        let u = user_of(users, id);
        seq![LineModel { id: id, screen_name: u.screen_name, depth: depth }] + report_edges(
            users,
            u.edge,
            u.distance,
            depth + 1,
        )
    }
}

/// The subtrees of a predecessor list, in order, strictly nearer ones only.
pub open spec fn report_edges(
    users: Seq<(u64, UserModel)>,
    edges: Seq<u64>,
    parent_distance: int,
    depth: int,
) -> Seq<LineModel>
    decreases parent_distance, 0int, edges.len(),
{
    if edges.len() == 0 || parent_distance < 0 {
        Seq::empty()
    } else {
        let h = if has_key(users, edges[0]) && 0 <= user_of(users, edges[0]).distance
            && user_of(users, edges[0]).distance < parent_distance {
            report_user(users, edges[0], depth)
        } else {
            Seq::empty()
        };
        h + report_edges(users, edges.subrange(1, edges.len() as int), parent_distance, depth)
    }
}

/// The whole report: the subtree of each restricting account, in order.
pub open spec fn report_spec(s: StatusModel) -> Seq<LineModel>
    decreases s.blocked.len(),
{
    if s.blocked.len() == 0 {
        Seq::empty()
    } else {
        report_user(s.users, s.blocked[0], 0) + report_spec(
            StatusModel { blocked: s.blocked.subrange(1, s.blocked.len() as int), ..s },
        )
    }
}

fn report_user_exec(users: &Vec<(u64, User)>, id: u64, depth: usize) -> (r: Vec<ReportLine>)
    requires
        has_key(users_view(users@), id) ==> depth + user_of(users_view(users@), id).distance
            < usize::MAX,
    ensures
        lines_view(r@) == report_user(users_view(users@), id, depth as int),
    decreases user_of(users_view(users@), id).distance, 1int, 0int,
{
    let ghost uv = users_view(users@);
    match find_user_index(users, id) {
        None => {
            proof {
                assert(lines_view(Seq::<ReportLine>::empty()) =~= Seq::<LineModel>::empty());
            }
            Vec::new()
        },
        Some(j) => {
            proof {
                lemma_find_idx(uv, id);
                assert(uv[j as int].0 == id);
                assert(user_of(uv, id) == uv[j as int].1);
            }
            let d = users[j].1.distance;
            if d < 0 {
                proof {
                    assert(lines_view(Seq::<ReportLine>::empty()) =~= Seq::<LineModel>::empty());
                }
                return Vec::new();
            }
            let line = ReportLine { id, screen_name: users[j].1.screen_name.clone(), depth };
            let mut out: Vec<ReportLine> = Vec::new();
            out.push(line);
            let mut sub = report_edges_exec(users, j, d, depth + 1);
            out.append(&mut sub);
            proof {
                assert(lines_view(out@) =~= report_user(uv, id, depth as int));
            }
            out
        },
    }
}

/// Walk the predecessors recorded at index `j` of the user list.
fn report_edges_exec(users: &Vec<(u64, User)>, j: usize, parent_distance: i32, depth: usize) -> (r:
    Vec<ReportLine>)
    requires
        j < users@.len(),
        parent_distance >= 0,
        parent_distance as int == users_view(users@)[j as int].1.distance,
        depth + parent_distance <= usize::MAX,
    ensures
        lines_view(r@) == report_edges(
            users_view(users@),
            users_view(users@)[j as int].1.edge,
            parent_distance as int,
            depth as int,
        ),
    decreases parent_distance as int, 0int, 0int,
{
    let ghost uv = users_view(users@);
    let ghost edges = uv[j as int].1.edge;
    let mut out: Vec<ReportLine> = Vec::new();
    let n = users[j].1.edge.len();
    let mut k: usize = 0;
    proof {
        assert(lines_view(out@) =~= Seq::<LineModel>::empty());
        assert(edges.subrange(0, edges.len() as int) =~= edges);
        assert(Seq::<LineModel>::empty() + report_edges(
            uv,
            edges,
            parent_distance as int,
            depth as int,
        ) =~= report_edges(uv, edges, parent_distance as int, depth as int));
    }
    while k < n
        invariant
            j < users@.len(),
            uv == users_view(users@),
            edges == uv[j as int].1.edge,
            n == edges.len(),
            k <= n,
            parent_distance as int == uv[j as int].1.distance,
            parent_distance >= 0,
            depth + parent_distance <= usize::MAX,
            report_edges(uv, edges, parent_distance as int, depth as int) == lines_view(out@)
                + report_edges(
                uv,
                edges.subrange(k as int, edges.len() as int),
                parent_distance as int,
                depth as int,
            ),
        decreases n - k,
    {
        let e = users[j].1.edge[k];
        proof {
            assert(edges[k as int] == e);
            assert(edges.subrange(k as int, edges.len() as int)[0] == e);
            assert(edges.subrange(k as int, edges.len() as int).subrange(
                1,
                edges.len() - k,
            ) =~= edges.subrange(k + 1, edges.len() as int));
        }
        match find_user_index(users, e) {
            None => {
                proof {
                    lemma_find_idx(uv, e);
                }
            },
            Some(m) => {
                proof {
                    lemma_find_idx(uv, e);
                    assert(user_of(uv, e) == uv[m as int].1);
                }
                let ed = users[m].1.distance;
                if 0 <= ed && ed < parent_distance {
                    let mut sub = report_user_exec(users, e, depth);
                    proof {
                        let ghost pre = lines_view(out@);
                        assert(lines_view(out@ + sub@) =~= pre + lines_view(sub@));
                    }
                    out.append(&mut sub);
                }
            },
        }
        k = k + 1;
    }
    proof {
        assert(edges.subrange(n as int, edges.len() as int).len() == 0);
        assert(lines_view(out@) + Seq::<LineModel>::empty() =~= lines_view(out@));
    }
    out
}

impl Status {
    /// The report of the completed crawl: for each restricting account, its
    /// shortest-path tree back toward the root, one line per account with
    /// its indentation depth.
    pub fn report_lines(&self) -> (r: Vec<ReportLine>)
        ensures
            lines_view(r@) == report_spec(self@),
    {
        let ghost s = self@;
        let mut out: Vec<ReportLine> = Vec::new();
        let mut k: usize = 0;
        proof {
            assert(lines_view(out@) =~= Seq::<LineModel>::empty());
            let cur0 = StatusModel {
                blocked: s.blocked.subrange(0, s.blocked.len() as int),
                ..s
            };
            assert(cur0.blocked =~= s.blocked);
            assert(cur0 == s);
            assert(Seq::<LineModel>::empty() + report_spec(s) =~= report_spec(s));
        }
        while k < self.blocked_users.len()
            invariant
                k <= self.blocked_users@.len(),
                s == self@,
                report_spec(s) == lines_view(out@) + report_spec(
                    StatusModel { blocked: s.blocked.subrange(k as int, s.blocked.len() as int), ..s },
                ),
            decreases self.blocked_users@.len() - k,
        {
            let b = self.blocked_users[k];
            proof {
                let cur = StatusModel {
                    blocked: s.blocked.subrange(k as int, s.blocked.len() as int),
                    ..s
                };
                assert(cur.blocked[0] == b);
                assert(cur.blocked.subrange(1, cur.blocked.len() as int) =~= s.blocked.subrange(
                    k + 1,
                    s.blocked.len() as int,
                ));
                lemma_find_idx(s.users, b);
                if has_key(s.users, b) {
                    assert(user_of(s.users, b).distance < usize::MAX);
                }
            }
            let mut sub = report_user_exec(&self.users, b, 0);
            proof {
                let ghost pre = lines_view(out@);
                assert(lines_view(out@ + sub@) =~= pre + lines_view(sub@));
            }
            out.append(&mut sub);
            k = k + 1;
        }
        proof {
            let fin = StatusModel {
                blocked: s.blocked.subrange(s.blocked.len() as int, s.blocked.len() as int),
                ..s
            };
            assert(fin.blocked.len() == 0);
            assert(lines_view(out@) + Seq::<LineModel>::empty() =~= lines_view(out@));
        }
        out
    }
}

/// The comma-joined decimal list of a lookup batch.
pub open spec fn ids_csv(ids: Seq<u64>) -> Seq<u8> {
    joined(ids.map_values(|i: u64| dec_digits(i as int)), seq![CH_COMMA])
}

/// The ghost values of a parameter list.
pub open spec fn string_pairs_view(s: Seq<(String, String)>) -> Seq<(Seq<char>, Seq<char>)> {
    s.map_values(|p: (String, String)| (p.0@, p.1@))
}

/// The parameters each remote call carries, exactly as the reference API
/// takes them.
pub open spec fn request_params_spec(r: RequestModel) -> Seq<(Seq<char>, Seq<char>)> {
    match r {
        RequestModel::Forward { id, cursor } => seq![
            ("user_id"@, chars_of_ascii(dec_digits(id as int))),
            ("cursor"@, cursor),
            ("stringify_ids"@, "true"@),
            ("count"@, "5000"@),
        ],
        RequestModel::Reverse { id, cursor } => seq![
            ("user_id"@, chars_of_ascii(dec_digits(id as int))),
            ("cursor"@, cursor),
            ("stringify_ids"@, "true"@),
            ("count"@, "5000"@),
        ],
        RequestModel::Lookup { ids } => seq![
            ("user_id"@, chars_of_ascii(ids_csv(ids))),
            ("include_blocked_by"@, "true"@),
        ],
        _ => Seq::empty(),
    }
}

/// The resource each remote call addresses.
pub open spec fn request_path_spec(r: RequestModel) -> Seq<char> {
    match r {
        RequestModel::Forward { .. } => "friends/ids"@,
        RequestModel::Reverse { .. } => "followers/ids"@,
        RequestModel::Lookup { .. } => "users/lookup"@,
        _ => ""@,
    }
}

/// Render a lookup batch as its comma-joined decimal list.
fn ids_csv_exec(ids: &Vec<u64>) -> (r: String)
    ensures
        r@ == chars_of_ascii(ids_csv(ids@)),
{
    let ghost items = ids@.map_values(|i: u64| dec_digits(i as int));
    let mut b: Vec<u8> = Vec::new();
    let mut k: usize = 0;
    proof {
        assert(items.subrange(0, 0) =~= Seq::<Seq<u8>>::empty());
    }
    while k < ids.len()
        invariant
            k <= ids@.len(),
            items == ids@.map_values(|i: u64| dec_digits(i as int)),
            b@ == joined(items.subrange(0, k as int), seq![CH_COMMA]),
        decreases ids@.len() - k,
    {
        if k > 0 {
            b.push(CH_COMMA);
        }
        let d = u64_to_dec(ids[k]);
        push_bytes(&mut b, &d);
        proof {
            assert(items[k as int] == dec_digits(ids@[k as int] as int));
            if k == 0 {
                assert(items.subrange(0, 1) =~= seq![items[0]]);
                assert(joined(seq![items[0]], seq![CH_COMMA]) == items[0]);
                assert(b@ =~= items[0]);
            } else {
                lemma_joined_snoc(items, seq![CH_COMMA], k as int);
                assert(b@ =~= joined(items.subrange(0, k as int), seq![CH_COMMA]) + seq![CH_COMMA]
                    + items[k as int]);
            }
        }
        k = k + 1;
    }
    proof {
        assert(items.subrange(0, items.len() as int) =~= items);
        assert forall|i: int| 0 <= i < items.len() implies all_ascii(#[trigger] items[i]) by {
            lemma_dec_digits_ascii(ids@[i] as int);
        }
        lemma_joined_ascii(items, seq![CH_COMMA]);
    }
    ascii_to_string(b)
}

/// The parameter list of a request, ready for signing and sending.
pub fn request_params(req: &Request) -> (r: Vec<(String, String)>)
    ensures
        string_pairs_view(r@) == request_params_spec(req@),
{
    let mut out: Vec<(String, String)> = Vec::new();
    match req {
        Request::Forward { id, cursor } | Request::Reverse { id, cursor } => {
            let idv = u64_to_dec(*id);
            proof {
                lemma_dec_digits_ascii(*id as int);
            }
            out.push(("user_id".to_owned(), ascii_to_string(idv)));
            out.push(("cursor".to_owned(), cursor.clone()));
            out.push(("stringify_ids".to_owned(), "true".to_owned()));
            out.push(("count".to_owned(), "5000".to_owned()));
            proof {
                assert(string_pairs_view(out@) =~~= request_params_spec(req@));
            }
        },
        Request::Lookup { ids } => {
            out.push(("user_id".to_owned(), ids_csv_exec(ids)));
            out.push(("include_blocked_by".to_owned(), "true".to_owned()));
            proof {
                assert(string_pairs_view(out@) =~~= request_params_spec(req@));
            }
        },
        _ => {
            proof {
                assert(string_pairs_view(out@) =~~= request_params_spec(req@));
            }
        },
    }
    out
}

/// The resource a request addresses.
pub fn request_path(req: &Request) -> (r: &'static str)
    ensures
        r@ == request_path_spec(req@),
{
    match req {
        Request::Forward { .. } => "friends/ids",
        Request::Reverse { .. } => "followers/ids",
        Request::Lookup { .. } => "users/lookup",
        _ => "",
    }
}

/// The full URL of a resource under the remote API's base path.
pub fn endpoint_url(path: &str) -> (r: String)
    ensures
        r@ == "https://api.twitter.com/1.1/"@ + path@ + ".json"@,
{
    let mut r: String = "https://api.twitter.com/1.1/".to_owned();
    r.append(path);
    r.append(".json");
    r
}

impl Status {
    /// Decide whether a snapshot — one just loaded from storage, say — is
    /// well formed, so that the step machine's guarantees apply to it.
    pub fn check_wf(&self) -> (r: bool)
        ensures
            r == wf(self@),
    {
        let ghost s = self@;
        // keys unique
        let mut i: usize = 0;
        while i < self.users.len()
            invariant
                i <= self.users@.len(),
                s == self@,
                forall|a: int, b: int|
                    0 <= a < b < s.users.len() && a < i ==> (#[trigger] s.users[a]).0 != (
                    #[trigger] s.users[b]).0,
            decreases self.users@.len() - i,
        {
            let mut j: usize = i + 1;
            while j < self.users.len()
                invariant
                    i < j <= self.users@.len() || (i + 1 == j && j >= self.users@.len()),
                    s == self@,
                    i < self.users@.len(),
                    forall|b: int| i < b < j ==> (#[trigger] s.users[b]).0 != s.users[i as int].0,
                decreases self.users@.len() - j,
            {
                if self.users[j].0 == self.users[i].0 {
                    proof {
                        assert(s.users[i as int].0 == s.users[j as int].0);
                        assert(!wf(s));
                    }
                    return false;
                }
                j = j + 1;
            }
            i = i + 1;
        }
        // distances nonnegative
        let mut i: usize = 0;
        while i < self.users.len()
            invariant
                i <= self.users@.len(),
                s == self@,
                forall|a: int| 0 <= a < i ==> (#[trigger] s.users[a]).1.distance >= 0,
            decreases self.users@.len() - i,
        {
            if self.users[i].1.distance < 0 {
                proof {
                    assert(s.users[i as int].1.distance < 0);
                    assert(!wf(s));
                }
                return false;
            }
            i = i + 1;
        }
        // queued items under the limit
        let mut i: usize = 0;
        while i < self.fetch_queue.len()
            invariant
                i <= self.fetch_queue@.len(),
                s == self@,
                forall|a: int|
                    0 <= a < i ==> (#[trigger] s.queue[a]).distance >= 0 && (s.queue[a].distance
                        == 0 || s.queue[a].distance < s.limit),
            decreases self.fetch_queue@.len() - i,
        {
            let d = match &self.fetch_queue[i] {
                Fetch::Follow(f) => f.distance,
                Fetch::Follower(f) => f.distance,
            };
            proof {
                assert(s.queue[i as int] == self.fetch_queue@[i as int]@);
            }
            if d < 0 || (d != 0 && d >= self.limit_distance) {
                proof {
                    assert(!wf(s));
                }
                return false;
            }
            i = i + 1;
        }
        // edges point to known, strictly nearer accounts
        let mut i: usize = 0;
        while i < self.users.len()
            invariant
                i <= self.users@.len(),
                s == self@,
                forall|a: int, k: int|
                    0 <= a < i && 0 <= k < s.users[a].1.edge.len() ==> has_key(
                        s.users,
                        #[trigger] s.users[a].1.edge[k],
                    ) && user_of(s.users, s.users[a].1.edge[k]).distance < s.users[a].1.distance,
            decreases self.users@.len() - i,
        {
            let mut k: usize = 0;
            while k < self.users[i].1.edge.len()
                invariant
                    i < self.users@.len(),
                    k <= self.users@[i as int].1.edge@.len(),
                    s == self@,
                    forall|t: int|
                        0 <= t < k ==> has_key(s.users, #[trigger] s.users[i as int].1.edge[t])
                            && user_of(s.users, s.users[i as int].1.edge[t]).distance
                            < s.users[i as int].1.distance,
                decreases self.users@[i as int].1.edge@.len() - k,
            {
                let e = self.users[i].1.edge[k];
                proof {
                    assert(s.users[i as int].1.edge[k as int] == e);
                }
                match find_user_index(&self.users, e) {
                    None => {
                        proof {
                            assert(!has_key(s.users, e));
                            assert(!wf(s));
                        }
                        return false;
                    },
                    Some(m) => {
                        proof {
                            lemma_find_idx(s.users, e);
                            assert(user_of(s.users, e) == s.users[m as int].1);
                        }
                        if self.users[m].1.distance >= self.users[i].1.distance {
                            proof {
                                assert(!wf(s));
                            }
                            return false;
                        }
                    },
                }
                k = k + 1;
            }
            i = i + 1;
        }
        proof {
            assert(wf(s));
        }
        true
    }
}

/// The crawler: the signer it calls with, and the snapshot it owns.
pub struct Task {
    pub twitter: Twitter,
    pub status: Status,
}

impl Task {
    /// A crawler with blank state, bounded by the given distance.
    pub fn new(twitter: Twitter, limit_distance: i32) -> (r: Task)
        ensures
            r.twitter == twitter,
            r.status@.limit == limit_distance as int,
            r.status@.queue == Seq::<FetchModel>::empty(),
            r.status@.users == Seq::<(u64, UserModel)>::empty(),
            r.status@.remaining == Seq::<u64>::empty(),
            r.status@.checked == Seq::<u64>::empty(),
            r.status@.blocked == Seq::<u64>::empty(),
            wf(r.status@),
    {
        Task { twitter, status: Status::new(limit_distance) }
    }

    /// Drive the crawl through a sequence of work-unit outcomes.
    pub fn run(&mut self, inputs: Vec<StepInput>) -> (done: bool)
        requires
            wf(old(self).status@),
        ensures
            final(self).status@ == spec_run(old(self).status@, inputs_view(inputs@)),
            wf(final(self).status@),
            final(self).twitter == old(self).twitter,
            done == (spec_next_request(final(self).status@) is Done),
    {
        self.status.run(inputs)
    }
}

} // verus!

