use spycheck::aggregate::Aggregate;
use spycheck::outcome::{Found, Outcome};
use spycheck::payload::Reply;
use spycheck::render::plain_lines;
use spycheck::supervisor::{Lookup, Stage, Supervisor};

fn lookups(n: usize) -> Vec<Lookup> {
    (0..n)
        .map(|i| Lookup { id: i.to_string(), name: format!("Guild {i}") })
        .collect()
}

fn ok(body: &str) -> Reply {
    Reply::Status { code: 200, body: Some(body.to_string()) }
}

/// Runs every lookup, answering each with `reply(index)`; when several are in
/// flight, the one picked by `pick` among them completes first. Returns the
/// aggregate and the largest number of lookups seen in flight together.
fn run(
    capacity: usize,
    items: Vec<Lookup>,
    reply: &dyn Fn(usize) -> Reply,
    pick: &dyn Fn(&[usize]) -> usize,
) -> (Aggregate, usize) {
    let mut s = Supervisor::new(capacity, items);
    let mut flying: Vec<usize> = Vec::new();
    let mut most = 0;
    loop {
        while let Some(i) = s.start_next() {
            flying.push(i);
        }
        most = most.max(flying.len());
        assert_eq!(s.in_flight(), flying.len());
        assert!(s.in_flight() <= capacity);
        if flying.is_empty() {
            break;
        }
        let k = pick(&flying);
        let i = flying.remove(k);
        assert_eq!(s.stage(i), Stage::InFlight);
        s.complete(i, reply(i));
        assert_eq!(s.stage(i), Stage::Done);
    }
    assert!(s.is_drained());
    (s.into_aggregate(), most)
}

fn first(_: &[usize]) -> usize {
    0
}

fn last(v: &[usize]) -> usize {
    v.len() - 1
}

fn sorted_ids(a: &Aggregate) -> Vec<String> {
    let mut ids: Vec<String> = a.successes.iter().map(|f: &Found| f.id.clone()).collect();
    ids.sort();
    ids
}

#[test]
fn drains_exactly_one_outcome_per_lookup() {
    for n in [0usize, 1, 2, 7, 20] {
        let (a, _) = run(3, lookups(n), &|i| if i % 2 == 0 { ok("false") } else { Reply::Unreachable }, &last);
        assert_eq!(a.successes.len() + a.failure_count, n);
        let mut ids = sorted_ids(&a);
        ids.dedup();
        assert_eq!(ids.len(), a.successes.len());
    }
}

#[test]
fn capacity_one_runs_one_at_a_time() {
    let (a, most) = run(1, lookups(6), &|_| ok("false"), &first);
    assert_eq!(most, 1);
    assert_eq!(a.successes.len(), 6);
}

#[test]
fn capacity_five_never_exceeds_five() {
    let (a, most) = run(5, lookups(12), &|_| ok("{}"), &last);
    assert_eq!(most, 5);
    assert_eq!(a.successes.len(), 12);
    let (_, most2) = run(2, lookups(12), &|_| ok("{}"), &first);
    assert_eq!(most2, 2);
}

#[test]
fn three_transport_errors_of_ten() {
    let failing = [1usize, 4, 8];
    let reply = |i: usize| if failing.contains(&i) { Reply::Unreachable } else { ok("false") };
    for pick in [&first as &dyn Fn(&[usize]) -> usize, &last] {
        let (a, _) = run(4, lookups(10), &reply, pick);
        assert_eq!(a.failure_count, 3);
        assert_eq!(a.successes.len(), 7);
        let mut expected: Vec<String> =
            (0..10usize).filter(|i| !failing.contains(i)).map(|i| i.to_string()).collect();
        expected.sort();
        assert_eq!(sorted_ids(&a), expected);
    }
    let other = |i: usize| if i >= 7 { Reply::Status { code: 503, body: None } } else { ok("1") };
    let (a, _) = run(10, lookups(10), &other, &last);
    assert_eq!(a.failure_count, 3);
    assert_eq!(a.successes.len(), 7);
}

#[test]
fn completion_order_changes_sequence_not_content() {
    let reply = |i: usize| if i % 3 == 0 { Reply::Unreachable } else { ok("\"seen\"") };
    let (a, _) = run(5, lookups(9), &reply, &first);
    let (b, _) = run(5, lookups(9), &reply, &last);
    assert_eq!(a.failure_count, b.failure_count);
    assert_eq!(sorted_ids(&a), sorted_ids(&b));
    let seq_a: Vec<String> = a.successes.iter().map(|f| f.id.clone()).collect();
    let seq_b: Vec<String> = b.successes.iter().map(|f| f.id.clone()).collect();
    assert_ne!(seq_a, seq_b);
}

#[test]
fn all_absent_plain_report() {
    let (a, _) = run(2, lookups(4), &|_| ok("false"), &first);
    assert_eq!(a.successes.len(), 4);
    assert!(a.successes.iter().all(|f| f.absent));
    assert_eq!(
        plain_lines(&a.successes),
        vec!["No servers matched, you may not be in the dataset".to_string()]
    );
}

#[test]
fn no_lookups_plain_report() {
    let (a, _) = run(1, lookups(0), &|_| ok("false"), &first);
    assert!(a.successes.is_empty());
    assert_eq!(a.failure_count, 0);
    assert_eq!(
        plain_lines(&a.successes),
        vec!["No servers matched, you may not be in the dataset".to_string()]
    );
}

#[test]
fn one_notable_plain_report() {
    let items = vec![
        Lookup { id: "17".to_string(), name: "Other".to_string() },
        Lookup { id: "42".to_string(), name: "Acme".to_string() },
        Lookup { id: "99".to_string(), name: "Third".to_string() },
    ];
    let reply = |i: usize| if i == 1 { ok("{\"servers\": [42]}") } else { ok("false") };
    let (a, _) = run(2, items, &reply, &last);
    assert_eq!(plain_lines(&a.successes), vec!["Acme (ID: 42) is compromised!".to_string()]);
}

#[test]
fn start_next_is_fifo_and_bounded() {
    let mut s = Supervisor::new(2, lookups(3));
    assert_eq!(s.len(), 3);
    assert_eq!(s.start_next(), Some(0));
    assert_eq!(s.start_next(), Some(1));
    assert_eq!(s.start_next(), None);
    assert_eq!(s.stage(2), Stage::Queued);
    s.complete(1, Reply::Unreachable);
    assert_eq!(s.start_next(), Some(2));
    assert_eq!(s.start_next(), None);
    assert!(!s.is_drained());
    assert_eq!(s.lookup(2).name, "Guild 2");
    s.complete(2, ok("true"));
    s.complete(0, ok("false"));
    assert!(s.is_drained());
    assert_eq!(s.start_next(), None);
    let a = s.into_aggregate();
    assert_eq!(a.failure_count, 1);
    let ids: Vec<&str> = a.successes.iter().map(|f| f.id.as_str()).collect();
    assert_eq!(ids, vec!["2", "0"]);
}

#[test]
fn aggregate_records_in_order() {
    let mut a = Aggregate::new();
    a.record(Outcome::Failed("x".to_string()));
    let f = Found {
        id: "5".to_string(),
        name: "Five".to_string(),
        body: "false".to_string(),
        payload: serde_json::Value::Bool(false),
        absent: true,
    };
    a.record(Outcome::Found(f));
    a.record(Outcome::Failed("y".to_string()));
    assert_eq!(a.failure_count, 2);
    assert_eq!(a.successes.len(), 1);
    assert_eq!(a.successes[0].id, "5");
}
