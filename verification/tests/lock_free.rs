use boc::mcs::behavior::{Behavior, PinnedBehavior};
use boc::mcs::cown::{CownHolder, CownPtrs};
use boc::mcs::memory::Phase;
use boc::mcs::request::Request;
use boc::mcs::runtime::Runtime;
use boc::progress::Progress;
use boc::protocol::ReqId;
use boc::resource::Resource;
use boc::{run_when, CownPtr};
use std::cmp::Ordering;

type Rt = Runtime<i64, &'static str>;
type Ints = Vec<CownPtr<i64>>;

fn runtime(values: &[i64]) -> (Rt, Ints) {
    let mut rt = Runtime::new();
    let ptrs = values.iter().map(|v| CownPtr::new(&mut rt, *v)).collect();
    (rt, ptrs)
}

fn req(behavior: u64, index: usize) -> ReqId {
    ReqId { behavior, index }
}

/// Gives back all cowns of `b` and says who became ready.
fn give_back(rt: &mut Rt, b: u64) -> Vec<u64> {
    let mut ready = Vec::new();
    PinnedBehavior::complete(rt, b);
    loop {
        match PinnedBehavior::release(rt, b) {
            Progress::Ready(next) => ready.push(next),
            Progress::Finished => return ready,
            Progress::Advanced => {}
            other => panic!("stuck: {:?}", other),
        }
    }
}

/// Hands over a behaviour without making a step of its scheduling.
fn enlist(rt: &mut Rt, cowns: &Ints, f: &'static str) -> u64 {
    PinnedBehavior::new::<i64, Ints>(cowns, f).enlist(rt)
}

#[test]
fn no_cowns_means_ready_at_once() {
    let mut rt: Rt = Runtime::new();
    assert_eq!(run_when(&mut rt, &(), "only"), (0, Progress::Ready(0)));
    assert_eq!(rt.behavior(0).phase(), Phase::Ready);
    assert_eq!(rt.behavior(0).count(), 0);
    assert_eq!(PinnedBehavior::run(&mut rt, 0), "only");
    assert_eq!(rt.behavior(0).phase(), Phase::Running);
    assert_eq!(give_back(&mut rt, 0), vec![]);
    assert!(!rt.is_live(0));
    assert_eq!(rt.next_id(), 1);
}

#[test]
fn a_new_cown_is_available() {
    let (rt, _) = runtime(&[7]);
    assert_eq!(rt.cown_count(), 1);
    assert_eq!(rt.cown(0).last, None);
    assert_eq!(rt.cown(0).resource, Some(7));
}

#[test]
fn a_free_cown_is_acquired_at_once() {
    let (mut rt, c) = runtime(&[7]);
    assert_eq!(run_when(&mut rt, &(c[0].clone(), ()), "f"), (0, Progress::Ready(0)));
    assert_eq!(rt.cown(0).last, Some(req(0, 0)));
    let r = rt.request(req(0, 0));
    assert!(r.scheduled);
    assert_eq!(r.next, None);
    assert_eq!(r.target, CownHolder { inner: 0 });
    assert_eq!(r.target.last(&rt), Some(req(0, 0)));
}

#[test]
fn exclusion_and_order_on_one_cown() {
    let (mut rt, c) = runtime(&[0]);
    assert_eq!(run_when(&mut rt, &c, "first"), (0, Progress::Ready(0)));
    assert_eq!(run_when(&mut rt, &c, "second"), (1, Progress::Pending));
    assert_eq!(run_when(&mut rt, &c, "third"), (2, Progress::Pending));
    assert_eq!(rt.request(req(0, 0)).next, Some(1));
    assert_eq!(rt.request(req(1, 0)).next, Some(2));
    assert_eq!(rt.behavior(1).count(), 1);
    assert_eq!(PinnedBehavior::run(&mut rt, 0), "first");
    assert_eq!(give_back(&mut rt, 0), vec![1]);
    assert_eq!(PinnedBehavior::run(&mut rt, 1), "second");
    assert_eq!(give_back(&mut rt, 1), vec![2]);
    assert_eq!(PinnedBehavior::run(&mut rt, 2), "third");
    assert_eq!(give_back(&mut rt, 2), vec![]);
    assert_eq!(rt.cown(0).last, None);
}

#[test]
fn disjoint_behaviours_run_together() {
    let (mut rt, c) = runtime(&[0, 0]);
    assert_eq!(run_when(&mut rt, &(c[0].clone(), ()), "a"), (0, Progress::Ready(0)));
    assert_eq!(run_when(&mut rt, &(c[1].clone(), ()), "b"), (1, Progress::Ready(1)));
    assert_eq!(PinnedBehavior::run(&mut rt, 0), "a");
    assert_eq!(PinnedBehavior::run(&mut rt, 1), "b");
}

#[test]
fn a_behaviour_waits_for_every_cown_in_use() {
    let (mut rt, c) = runtime(&[0, 0, 0]);
    run_when(&mut rt, &(c[0].clone(), ()), "a");
    run_when(&mut rt, &(c[2].clone(), ()), "b");
    assert_eq!(run_when(&mut rt, &c, "all"), (2, Progress::Pending));
    assert_eq!(rt.behavior(2).count(), 2);
    PinnedBehavior::run(&mut rt, 0);
    assert_eq!(give_back(&mut rt, 0), vec![]);
    assert_eq!(rt.behavior(2).count(), 1);
    PinnedBehavior::run(&mut rt, 1);
    assert_eq!(give_back(&mut rt, 1), vec![2]);
}

#[test]
fn requests_are_in_the_order_of_cowns() {
    let (mut rt, c) = runtime(&[0, 0, 0]);
    let list = (c[2].clone(), (c[0].clone(), (c[1].clone(), ())));
    let made = CownPtrs::<i64>::requests(&list);
    assert_eq!(made.iter().map(|r| r.target.inner).collect::<Vec<usize>>(), vec![1, 0, 2]);
    run_when(&mut rt, &list, "f");
    let sorted: Vec<usize> = (0..3).map(|i| rt.behavior(0).request(i).target.inner).collect();
    assert_eq!(sorted, vec![0, 1, 2]);
}

#[test]
fn requests_compare_by_their_cowns() {
    let (_, c) = runtime(&[0, 0]);
    let low = Request::new(c[0].clone());
    let high = Request::new(c[1].clone());
    assert_eq!(low.cmp(&high), Ordering::Less);
    assert_eq!(high.cmp(&low), Ordering::Greater);
    assert_eq!(low.cmp(&low), Ordering::Equal);
    assert!(low < high);
    assert!(low == Request::new(c[0].clone()));
    assert!(low != high);
}

#[test]
fn opposite_lists_do_not_deadlock() {
    let (mut rt, c) = runtime(&[0, 0]);
    let there = (c[0].clone(), (c[1].clone(), ()));
    let back = (c[1].clone(), (c[0].clone(), ()));
    assert_eq!(run_when(&mut rt, &there, "there"), (0, Progress::Ready(0)));
    assert_eq!(run_when(&mut rt, &back, "back"), (1, Progress::Pending));
    PinnedBehavior::run(&mut rt, 0);
    assert_eq!(give_back(&mut rt, 0), vec![1]);
    PinnedBehavior::run(&mut rt, 1);
    assert_eq!(give_back(&mut rt, 1), vec![]);
}

#[test]
fn a_dining_circle_comes_to_an_end() {
    let (mut rt, c) = runtime(&[0, 0, 0, 0]);
    let mut ready = Vec::new();
    for i in 0..4 {
        let list = (c[i].clone(), (c[(i + 1) % 4].clone(), ()));
        if let (_, Progress::Ready(b)) = run_when(&mut rt, &list, "dine") {
            ready.push(b);
        }
    }
    let mut order = Vec::new();
    while let Some(b) = ready.pop() {
        PinnedBehavior::run(&mut rt, b);
        order.push(b);
        ready.extend(give_back(&mut rt, b));
    }
    assert_eq!(order, vec![0, 1, 2, 3]);
    for i in 0..4 {
        assert_eq!(rt.cown(i).last, None);
    }
}

#[test]
fn values_come_out_in_the_shape_of_the_list() {
    let (mut rt, c) = runtime(&[10, 20]);
    let list = (c[1].clone(), (c[0].clone(), ()));
    run_when(&mut rt, &list, "f");
    PinnedBehavior::run(&mut rt, 0);
    let (second, (first, ())) = CownPtrs::<i64>::get_mut(&list, &mut rt, 0);
    assert_eq!((first, second), (10, 20));
    assert_eq!(rt.cown(0).resource, None);
    list.put_back(&mut rt, 0, (second + 1, (first + 2, ())));
    assert_eq!(rt.cown(0).resource, Some(12));
    assert_eq!(rt.cown(1).resource, Some(21));
}

#[test]
fn vectors_lend_and_return_in_order() {
    let (mut rt, c) = runtime(&[1, 2, 3]);
    run_when(&mut rt, &c, "f");
    PinnedBehavior::run(&mut rt, 0);
    let values = CownPtrs::<i64>::get_mut(&c, &mut rt, 0);
    assert_eq!(values, vec![1, 2, 3]);
    c.put_back(&mut rt, 0, values);
    for i in 0..3 {
        assert_eq!(rt.cown(i).resource, Some(i as i64 + 1));
    }
}

/// A common form for two types of values. Of the functions of [`Resource`], those
/// that only proofs speak of are never called.
#[derive(Debug, PartialEq)]
enum Any {
    Number(i64),
    Text(String),
}

struct Number(i64);

struct Text(String);

impl Resource<Any> for Number {
    fn packed(self) -> Any {
        unreachable!()
    }

    fn packs(_: Any) -> bool {
        unreachable!()
    }

    fn pack(self) -> Any {
        Any::Number(self.0)
    }

    fn unpack(v: Any) -> Number {
        match v {
            Any::Number(n) => Number(n),
            Any::Text(_) => unreachable!(),
        }
    }
}

impl Resource<Any> for Text {
    fn packed(self) -> Any {
        unreachable!()
    }

    fn packs(_: Any) -> bool {
        unreachable!()
    }

    fn pack(self) -> Any {
        Any::Text(self.0)
    }

    fn unpack(v: Any) -> Text {
        match v {
            Any::Text(t) => Text(t),
            Any::Number(_) => unreachable!(),
        }
    }
}

#[test]
fn values_of_different_types_share_a_runtime() {
    let mut rt: Runtime<Any, ()> = Runtime::new();
    let n = CownPtr::new(&mut rt, Number(4));
    let t = CownPtr::new(&mut rt, Text(String::from("four")));
    let list = (t.clone(), (n.clone(), ()));
    assert_eq!(run_when(&mut rt, &list, ()), (0, Progress::Ready(0)));
    PinnedBehavior::run(&mut rt, 0);
    let (Text(text), (Number(number), ())) = CownPtrs::<Any>::get_mut(&list, &mut rt, 0);
    assert_eq!((text.as_str(), number), ("four", 4));
    list.put_back(&mut rt, 0, (Text(text + "!"), (Number(number + 1), ())));
    assert_eq!(rt.cown(0).resource, Some(Any::Number(5)));
    assert_eq!(rt.cown(1).resource, Some(Any::Text(String::from("four!"))));
}

#[test]
fn scheduling_is_made_of_single_steps() {
    let (mut rt, c) = runtime(&[0]);
    let b = enlist(&mut rt, &c, "f");
    let mut phases = vec![rt.behavior(b).phase()];
    let mut last = Progress::Advanced;
    while last == Progress::Advanced {
        last = Behavior::schedule(&mut rt, b);
        phases.push(rt.behavior(b).phase());
    }
    assert_eq!(last, Progress::Ready(0));
    assert_eq!(
        phases,
        vec![
            Phase::Enqueue(0),
            Phase::Resolve(0),
            Phase::Enqueue(1),
            Phase::Finish(0),
            Phase::Finish(1),
            Phase::Ready,
        ]
    );
}

#[test]
fn a_scheduler_waits_for_the_one_in_front() {
    let (mut rt, c) = runtime(&[0, 0]);
    let a = enlist(&mut rt, &c, "a");
    assert_eq!(Behavior::schedule(&mut rt, a), Progress::Advanced);
    let b = enlist(&mut rt, &c, "b");
    assert_eq!(Behavior::schedule(&mut rt, b), Progress::Advanced);
    assert_eq!(rt.behavior(b).phase(), Phase::Wait(0, req(a, 0)));
    assert_eq!(Behavior::schedule(&mut rt, b), Progress::Waiting);
    assert_eq!(rt.behavior(b).phase(), Phase::Wait(0, req(a, 0)));
    // Resolve, Enqueue(1), Resolve, Enqueue(2), Finish(0).
    for _ in 0..5 {
        assert_eq!(Behavior::schedule(&mut rt, a), Progress::Advanced);
    }
    assert!(rt.request(req(a, 0)).scheduled);
    assert!(!rt.request(req(a, 1)).scheduled);
    assert_eq!(Behavior::schedule(&mut rt, b), Progress::Advanced);
    assert_eq!(rt.behavior(b).phase(), Phase::Link(0, req(a, 0)));
    assert_eq!(rt.request(req(a, 0)).next, None);
    assert_eq!(Behavior::schedule(&mut rt, b), Progress::Advanced);
    assert_eq!(rt.request(req(a, 0)).next, Some(b));
    assert_eq!(Behavior::schedule(&mut rt, b), Progress::Advanced);
    assert_eq!(Behavior::schedule(&mut rt, b), Progress::Waiting);
    assert_eq!(Behavior::schedule(&mut rt, a), Progress::Advanced);
    assert_eq!(Behavior::schedule(&mut rt, a), Progress::Ready(a));
    for _ in 0..5 {
        assert_eq!(Behavior::schedule(&mut rt, b), Progress::Advanced);
    }
    assert_eq!(Behavior::schedule(&mut rt, b), Progress::Pending);
    assert_eq!(rt.behavior(b).count(), 2);
}

#[test]
fn a_release_waits_for_the_link() {
    let (mut rt, c) = runtime(&[0]);
    assert_eq!(run_when(&mut rt, &c, "a"), (0, Progress::Ready(0)));
    let b = enlist(&mut rt, &c, "b");
    assert_eq!(Behavior::schedule(&mut rt, b), Progress::Advanced);
    PinnedBehavior::run(&mut rt, 0);
    PinnedBehavior::complete(&mut rt, 0);
    assert_eq!(PinnedBehavior::release(&mut rt, 0), Progress::Advanced);
    assert_eq!(rt.behavior(0).phase(), Phase::Exchange(0));
    assert_eq!(PinnedBehavior::release(&mut rt, 0), Progress::Advanced);
    assert_eq!(rt.behavior(0).phase(), Phase::Spin(0));
    assert_eq!(PinnedBehavior::release(&mut rt, 0), Progress::Waiting);
    assert_eq!(Behavior::schedule(&mut rt, b), Progress::Advanced);
    assert_eq!(PinnedBehavior::release(&mut rt, 0), Progress::Waiting);
    assert_eq!(Behavior::schedule(&mut rt, b), Progress::Advanced);
    assert_eq!(PinnedBehavior::release(&mut rt, 0), Progress::Advanced);
    assert_eq!(rt.behavior(0).phase(), Phase::Notify(0, b));
    // The scheduler of `b` still has its own resolution to make.
    assert_eq!(PinnedBehavior::release(&mut rt, 0), Progress::Advanced);
    assert_eq!(rt.behavior(0).phase(), Phase::Clear(0));
    assert_eq!(rt.behavior(b).count(), 1);
    assert_eq!(PinnedBehavior::release(&mut rt, 0), Progress::Advanced);
    assert_eq!(PinnedBehavior::release(&mut rt, 0), Progress::Finished);
    assert_eq!(Behavior::schedule(&mut rt, b), Progress::Advanced);
    assert_eq!(Behavior::schedule(&mut rt, b), Progress::Advanced);
    assert_eq!(Behavior::schedule(&mut rt, b), Progress::Ready(b));
}

#[test]
fn a_cown_asked_for_twice_is_never_acquired() {
    let (mut rt, c) = runtime(&[0]);
    let twice = (c[0].clone(), (c[0].clone(), ()));
    assert_eq!(run_when(&mut rt, &twice, "twice"), (0, Progress::Waiting));
    assert_eq!(rt.behavior(0).phase(), Phase::Wait(1, req(0, 0)));
    assert_eq!(Behavior::schedule(&mut rt, 0), Progress::Waiting);
    assert_eq!(run_when(&mut rt, &c, "next"), (1, Progress::Waiting));
}

#[test]
fn names_are_not_used_again() {
    let (mut rt, c) = runtime(&[0]);
    for i in 0..3 {
        assert_eq!(run_when(&mut rt, &c, "f"), (i, Progress::Ready(i)));
        PinnedBehavior::run(&mut rt, i);
        give_back(&mut rt, i);
        assert!(!rt.is_live(i));
    }
    assert_eq!(rt.next_id(), 3);
}

#[test]
fn resolving_counts_down_to_ready() {
    let (mut rt, c) = runtime(&[0, 0]);
    let b = enlist(&mut rt, &c, "f");
    assert_eq!(rt.behavior(b).count(), 3);
    assert!(!Behavior::resolve_one(&mut rt, b));
    assert!(!Behavior::resolve_one(&mut rt, b));
    assert!(Behavior::resolve_one(&mut rt, b));
    assert_eq!(rt.behavior(b).phase(), Phase::Ready);
}

/// Every interleaving of two schedulers on two shared cowns leaves both cowns
/// with the same order.
#[test]
fn every_interleaving_gives_one_order() {
    for choices in 0u32..(1 << 14) {
        let (mut rt, c) = runtime(&[0, 0]);
        let names = [enlist(&mut rt, &c, "a"), enlist(&mut rt, &c, "b")];
        let mut done = [false, false];
        let mut ready = Vec::new();
        let mut k: u32 = 0;
        while !(done[0] && done[1]) {
            let first = if k < 14 { (choices >> k & 1) as usize } else { (k % 2) as usize };
            k += 1;
            let i = if done[first] { 1 - first } else { first };
            match Behavior::schedule(&mut rt, names[i]) {
                Progress::Ready(b) => {
                    ready.push(b);
                    done[i] = true;
                }
                Progress::Pending => done[i] = true,
                _ => {}
            }
        }
        assert_eq!(ready.len(), 1);
        let winner = ready[0];
        let loser = 1 - winner;
        assert_eq!(rt.cown(0).last, Some(req(loser, 0)));
        assert_eq!(rt.cown(1).last, Some(req(loser, 1)));
        PinnedBehavior::run(&mut rt, winner);
        assert_eq!(give_back(&mut rt, winner), vec![loser]);
    }
}

#[test]
fn a_value_is_reclaimed_when_nobody_asks() {
    let (mut rt, c) = runtime(&[8, 9]);
    run_when(&mut rt, &(c[0].clone(), ()), "f");
    assert_eq!(c[0].clone().reclaim(&mut rt, 0), None);
    assert_eq!(rt.cown(0).resource, Some(8));
    PinnedBehavior::run(&mut rt, 0);
    assert_eq!(c[0].clone().reclaim(&mut rt, 0), None);
    give_back(&mut rt, 0);
    assert_eq!(c[0].clone().reclaim(&mut rt, -1), Some(8));
    assert_eq!(rt.cown(0).resource, Some(-1));
    assert_eq!(rt.cown(1).resource, Some(9));
}

/// A routine that holds a cown spawns behaviours for that cown and another one.
#[test]
fn a_routine_spawns_while_it_holds_cowns() {
    let (mut rt, c) = runtime(&[0, 0]);
    assert_eq!(run_when(&mut rt, &(c[1].clone(), ()), "outer"), (0, Progress::Ready(0)));
    PinnedBehavior::run(&mut rt, 0);
    assert_eq!(run_when(&mut rt, &c, "inner"), (1, Progress::Pending));
    assert_eq!(run_when(&mut rt, &(c[0].clone(), ()), "next"), (2, Progress::Pending));
    assert_eq!(give_back(&mut rt, 0), vec![1]);
    PinnedBehavior::run(&mut rt, 1);
    assert_eq!(give_back(&mut rt, 1), vec![2]);
    PinnedBehavior::run(&mut rt, 2);
    assert_eq!(give_back(&mut rt, 2), vec![]);
    assert_eq!(rt.cown(0).last, None);
    assert_eq!(rt.cown(1).last, None);
}

/// Giving back one of two cowns tells one behaviour, and leaves the other cown.
#[test]
fn giving_back_one_cown_changes_nothing_else() {
    let (mut rt, c) = runtime(&[3, 4]);
    run_when(&mut rt, &c, "a");
    run_when(&mut rt, &c, "b");
    run_when(&mut rt, &(c[1].clone(), ()), "c");
    PinnedBehavior::run(&mut rt, 0);
    PinnedBehavior::complete(&mut rt, 0);
    for _ in 0..3 {
        assert_eq!(PinnedBehavior::release(&mut rt, 0), Progress::Advanced);
    }
    assert_eq!(rt.behavior(0).phase(), Phase::Release(1));
    assert_eq!(rt.behavior(1).count(), 1);
    assert_eq!(rt.behavior(2).count(), 1);
    assert_eq!(rt.cown(0).last, Some(req(1, 0)));
    assert_eq!(rt.cown(1).last, Some(req(2, 0)));
    assert_eq!((rt.cown(0).resource, rt.cown(1).resource), (Some(3), Some(4)));
}

/// Values that are returned and borrowed again are those that were put in.
#[test]
fn values_pass_from_one_behaviour_to_the_next() {
    let (mut rt, c) = runtime(&[1]);
    for i in 0..3 {
        run_when(&mut rt, &c, "f");
        PinnedBehavior::run(&mut rt, i);
        let values = CownPtrs::<i64>::get_mut(&c, &mut rt, i);
        assert_eq!(rt.cown(0).resource, None);
        assert_eq!(values, vec![1 << i]);
        c.put_back(&mut rt, i, vec![values[0] * 2]);
        give_back(&mut rt, i);
    }
    assert_eq!(rt.cown(0).resource, Some(8));
}

/// Routines that spawn further behaviours: all of them run, each once.
#[test]
fn every_spawned_behaviour_runs_once() {
    let (mut rt, c) = runtime(&[0, 0, 0]);
    let mut ready = Vec::new();
    let mut started = Vec::new();
    if let (_, Progress::Ready(b)) = run_when(&mut rt, &c, "root") {
        ready.push(b);
    }
    while let Some(b) = ready.pop() {
        PinnedBehavior::run(&mut rt, b);
        started.push(b);
        if rt.next_id() < 7 {
            for i in 0..2 {
                let list = (c[(b as usize + i) % 3].clone(), (c[(b as usize + i + 1) % 3].clone(), ()));
                if let (_, Progress::Ready(next)) = run_when(&mut rt, &list, "child") {
                    ready.push(next);
                }
            }
        }
        ready.extend(give_back(&mut rt, b));
    }
    started.sort();
    assert_eq!(started, (0..rt.next_id()).collect::<Vec<u64>>());
    assert_eq!(rt.next_id(), 7);
    for i in 0..3 {
        assert_eq!(rt.cown(i).last, None);
    }
}

/// Borrowing from one cown leaves the values of the others.
#[test]
fn a_value_stays_while_others_are_borrowed() {
    let (mut rt, c) = runtime(&[5, 6]);
    run_when(&mut rt, &c, "f");
    PinnedBehavior::run(&mut rt, 0);
    let one = (c[1].clone(), ());
    let (value, ()) = CownPtrs::<i64>::get_mut(&one, &mut rt, 0);
    assert_eq!(rt.cown(0).resource, Some(5));
    one.put_back(&mut rt, 0, (value + 1, ()));
    give_back(&mut rt, 0);
    assert_eq!((rt.cown(0).resource, rt.cown(1).resource), (Some(5), Some(7)));
}
