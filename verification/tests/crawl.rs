use blockgraph::task::{
    endpoint_url, request_params, request_path, Fetch, FetchStatus, LookupEntry, ReportLine,
    Request, Status, StepInput, Task, User,
};
use blockgraph::twitter::Twitter;

fn page(next: &str, ids: Vec<u64>) -> StepInput {
    StepInput::Page { next_cursor: next.to_string(), ids }
}

fn looked(entries: Vec<(u64, &str, bool)>) -> StepInput {
    StepInput::Looked {
        entries: entries
            .into_iter()
            .map(|(id, name, blocked_by)| LookupEntry {
                id,
                screen_name: name.to_string(),
                blocked_by,
            })
            .collect(),
    }
}

fn user(st: &Status, id: u64) -> &User {
    &st.users.iter().find(|p| p.0 == id).unwrap().1
}

#[test]
fn seed_enqueues_root_forward_fetch() {
    let mut st = Status::new(2);
    st.seed(1);
    assert_eq!(st.my_id, 1);
    assert_eq!(st.users.len(), 1);
    assert_eq!(user(&st, 1).distance, 0);
    match st.next_request() {
        Request::Forward { id, cursor } => {
            assert_eq!(id, 1);
            assert_eq!(cursor, "-1");
        }
        other => panic!("unexpected request: {:?}", other),
    }
}

/// Root R follows A; A follows B; B restricts R. With the distance limit 1,
/// A is recorded at distance 1 but never expanded, so B is never discovered
/// and no restricting account is found.
#[test]
fn distance_limit_cuts_off_expansion() {
    let mut st = Status::new(1);
    st.seed(1);
    assert!(matches!(st.next_request(), Request::Forward { .. }));
    st.step(page("0", vec![2]));
    // A is known but not queued for expansion: 1 < 1 is false
    assert_eq!(user(&st, 2).distance, 1);
    assert!(matches!(st.next_request(), Request::Reverse { .. }));
    st.step(page("0", vec![]));
    // hand-off
    assert!(matches!(st.next_request(), Request::Nothing));
    st.step(StepInput::Nothing);
    assert_eq!(st.remaining_users, vec![1, 2]);
    match st.next_request() {
        Request::Lookup { ids } => assert_eq!(ids, vec![1, 2]),
        other => panic!("unexpected request: {:?}", other),
    }
    st.step(looked(vec![(1, "root", false), (2, "alice", false)]));
    assert!(matches!(st.next_request(), Request::Done));
    assert!(st.blocked_users.is_empty());
    assert!(st.report_lines().is_empty());
}

/// The same graph with the distance limit 2: B is discovered at distance 2,
/// not expanded (2 < 2 is false), but still looked up, found restricting,
/// and reported under its predecessor chain back to the root.
#[test]
fn limit_two_finds_restricting_account() {
    let mut st = Status::new(2);
    st.seed(1);
    st.step(page("0", vec![2]));
    assert_eq!(user(&st, 2).distance, 1);
    // A was enqueued for expansion behind the root's reverse fetch
    assert!(matches!(st.next_request(), Request::Reverse { id: 1, .. }));
    st.step(page("0", vec![]));
    match st.next_request() {
        Request::Forward { id, cursor } => {
            assert_eq!(id, 2);
            assert_eq!(cursor, "-1");
        }
        other => panic!("unexpected request: {:?}", other),
    }
    st.step(page("0", vec![3]));
    assert_eq!(user(&st, 3).distance, 2);
    assert!(matches!(st.next_request(), Request::Reverse { id: 2, .. }));
    // R follows A, so R turns up among A's followers; no edge is recorded
    // from a farther account to a nearer one
    st.step(page("0", vec![1]));
    assert!(user(&st, 1).edge.is_empty());
    st.step(StepInput::Nothing);
    st.step(looked(vec![
        (1, "root", false),
        (2, "alice", false),
        (3, "mallory", true),
    ]));
    assert!(matches!(st.next_request(), Request::Done));
    assert_eq!(st.blocked_users, vec![3]);
    assert_eq!(user(&st, 3).screen_name, "mallory");
    let lines = st.report_lines();
    let expect = vec![
        ReportLine { id: 3, screen_name: "mallory".to_string(), depth: 0 },
        ReportLine { id: 2, screen_name: "alice".to_string(), depth: 1 },
        ReportLine { id: 1, screen_name: "root".to_string(), depth: 2 },
    ];
    assert_eq!(lines, expect);
}

/// A listing page that is not the last re-enqueues at the front, under the
/// returned cursor, before any other queued work.
#[test]
fn pagination_continues_at_the_front() {
    let mut st = Status::new(3);
    st.seed(1);
    st.step(page("1600", vec![2]));
    // the continuation outranks both the new account's fetch and everything
    // else
    match st.next_request() {
        Request::Forward { id, cursor } => {
            assert_eq!(id, 1);
            assert_eq!(cursor, "1600");
        }
        other => panic!("unexpected request: {:?}", other),
    }
    // and the freshly discovered account waits at the back
    assert_eq!(st.fetch_queue.len(), 2);
    st.step(page("0", vec![]));
    assert!(matches!(st.next_request(), Request::Reverse { id: 1, .. }));
}

/// A reverse listing paginates the same way, and queues nothing further
/// once exhausted.
#[test]
fn reverse_pagination_continues_at_the_front() {
    let mut st = Status::new(2);
    st.seed(1);
    st.step(page("0", vec![]));
    assert!(matches!(st.next_request(), Request::Reverse { id: 1, .. }));
    st.step(page("77", vec![2]));
    match st.next_request() {
        Request::Reverse { id, cursor } => {
            assert_eq!(id, 1);
            assert_eq!(cursor, "77");
        }
        other => panic!("unexpected request: {:?}", other),
    }
    st.step(page("0", vec![]));
    assert!(matches!(st.next_request(), Request::Forward { id: 2, .. }));
}

/// The waiting list is filled from the known accounts exactly once, at the
/// moment the queue drains with nothing looked up yet.
#[test]
fn handoff_happens_exactly_once() {
    let mut st = Status::new(1);
    st.seed(1);
    st.step(page("0", vec![2]));
    st.step(page("0", vec![]));
    assert!(st.remaining_users.is_empty());
    assert!(matches!(st.next_request(), Request::Nothing));
    st.step(StepInput::Nothing);
    assert_eq!(st.remaining_users, vec![1, 2]);
    // one batch looked up: the hand-off never repeats
    st.step(looked(vec![(1, "root", false), (2, "alice", false)]));
    assert!(st.remaining_users.is_empty());
    assert!(matches!(st.next_request(), Request::Done));
    let snapshot_queue = st.fetch_queue.len();
    st.step(StepInput::Nothing);
    assert!(st.remaining_users.is_empty());
    assert_eq!(st.fetch_queue.len(), snapshot_queue);
}

/// Running to completion in one continuous pass leaves the same state as
/// stopping after any work item and resuming from the kept snapshot.
#[test]
fn interrupted_run_matches_continuous_run() {
    let inputs = || {
        vec![
            page("0", vec![2]),
            page("0", vec![]),
            page("0", vec![3]),
            page("0", vec![1]),
            StepInput::Nothing,
            looked(vec![(1, "root", false), (2, "alice", false), (3, "mallory", true)]),
        ]
    };
    let mut continuous = Status::new(2);
    continuous.seed(1);
    let done = continuous.run(inputs());
    assert!(done);
    for split in 0..=6 {
        let mut first: Vec<StepInput> = inputs();
        let second = first.split_off(split);
        let mut resumed = Status::new(2);
        resumed.seed(1);
        resumed.run(first);
        resumed.run(second);
        assert_eq!(resumed, continuous);
    }
}

/// A work item whose captured distance no longer matches the account's
/// recorded distance is dropped without any remote call.
#[test]
fn stale_item_is_dropped() {
    let mut st = Status::new(3);
    st.seed(7);
    st.fetch_queue.push_back(Fetch::Follow(FetchStatus {
        id: 7,
        cursor: "-1".to_string(),
        distance: 2,
    }));
    // the front item matches and asks for a fetch; drain it
    st.step(page("0", vec![]));
    st.step(page("0", vec![]));
    // now the stale duplicate is in front: distance 2, recorded 0
    assert!(matches!(st.next_request(), Request::Nothing));
    let users_before = st.users.len();
    st.step(StepInput::Nothing);
    assert_eq!(st.users.len(), users_before);
    assert!(st.fetch_queue.is_empty());
}

/// A refused listing drops just that work item.
#[test]
fn unauthorized_listing_is_dropped() {
    let mut st = Status::new(2);
    st.seed(1);
    st.step(StepInput::Unauthorized);
    assert!(st.fetch_queue.is_empty());
    assert_eq!(st.users.len(), 1);
}

/// An account reached again along a non-improving path still records the
/// nearer predecessor, and only once.
#[test]
fn edges_accumulate_without_duplicates() {
    let mut st = Status::new(3);
    st.seed(1);
    // two pages of the root's forward listing both name account 2
    st.step(page("1600", vec![2]));
    st.step(page("0", vec![2]));
    assert_eq!(user(&st, 2).distance, 1);
    assert_eq!(user(&st, 2).edge, vec![1]);
}

#[test]
fn lookup_batches_are_limited_to_one_hundred() {
    let mut st = Status::new(1);
    st.seed(1);
    let many: Vec<u64> = (2..150).collect();
    st.step(page("0", vec![]));
    st.step(page("0", many));
    st.step(StepInput::Nothing);
    match st.next_request() {
        Request::Lookup { ids } => {
            assert_eq!(ids.len(), 100);
            assert_eq!(ids[0], 1);
            assert_eq!(ids[99], 100);
        }
        other => panic!("unexpected request: {:?}", other),
    }
    st.step(looked(vec![(1, "root", false)]));
    assert_eq!(st.remaining_users.len(), 49);
    assert!(matches!(st.next_request(), Request::Lookup { .. }));
}

#[test]
fn lookup_records_unknown_accounts_are_skipped() {
    let mut st = Status::new(1);
    st.seed(1);
    st.step(page("0", vec![]));
    st.step(page("0", vec![]));
    st.step(StepInput::Nothing);
    st.step(looked(vec![(99, "ghost", true), (1, "root", false)]));
    assert_eq!(st.checked_users, vec![1]);
    assert!(st.blocked_users.is_empty());
}

#[test]
fn request_params_match_the_reference_api() {
    let fwd = Request::Forward { id: 12345, cursor: "-1".to_string() };
    let p = request_params(&fwd);
    assert_eq!(
        p,
        vec![
            ("user_id".to_string(), "12345".to_string()),
            ("cursor".to_string(), "-1".to_string()),
            ("stringify_ids".to_string(), "true".to_string()),
            ("count".to_string(), "5000".to_string()),
        ]
    );
    assert_eq!(request_path(&fwd), "friends/ids");
    let rev = Request::Reverse { id: 9, cursor: "1600".to_string() };
    assert_eq!(request_path(&rev), "followers/ids");
    let lk = Request::Lookup { ids: vec![1, 22, 333] };
    let p = request_params(&lk);
    assert_eq!(
        p,
        vec![
            ("user_id".to_string(), "1,22,333".to_string()),
            ("include_blocked_by".to_string(), "true".to_string()),
        ]
    );
    assert_eq!(request_path(&lk), "users/lookup");
    assert_eq!(
        endpoint_url("friends/ids"),
        "https://api.twitter.com/1.1/friends/ids.json"
    );
}

#[test]
fn check_wf_accepts_reachable_states_and_rejects_broken_ones() {
    let mut st = Status::new(2);
    st.seed(1);
    st.step(page("0", vec![2]));
    assert!(st.check_wf());
    // an edge pointing to an unknown account breaks the invariant
    let mut broken = Status::new(2);
    broken.seed(1);
    broken.users[0].1.edge.push(42);
    assert!(!broken.check_wf());
    // an edge from a farther account to a nearer one breaks it too
    let mut cyclic = Status::new(2);
    cyclic.seed(1);
    cyclic.step(page("0", vec![2]));
    cyclic.users[0].1.edge.push(2);
    assert!(!cyclic.check_wf());
}

#[test]
fn task_wraps_signer_and_state() {
    let tw = Twitter::new(
        "k".to_string(),
        "s".to_string(),
        "t".to_string(),
        "ts".to_string(),
    );
    let mut task = Task::new(tw, 1);
    task.status.seed(1);
    let done = task.run(vec![
        page("0", vec![]),
        page("0", vec![]),
        StepInput::Nothing,
        looked(vec![(1, "root", false)]),
    ]);
    assert!(done);
    assert_eq!(task.status.checked_users, vec![1]);
}
