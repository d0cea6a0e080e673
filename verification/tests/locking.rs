use boc::locked::behaviour::Behaviour;
use boc::locked::cown::{ArcCown, CownList};
use boc::locked::memory::{Location, Phase, Request, ResourceHolder, ResourceState};
use boc::locked::runtime::Runtime;
use boc::progress::Progress;
use boc::protocol::ReqId;
use boc::resource::Resource;

type Rt = Runtime<i64, &'static str>;
type Ints = Vec<ArcCown<i64>>;

const HERE: Location = Location { file: "locking.rs", line: 12, column: 1 };

fn new_runtime(values: &[i64]) -> (Rt, Ints) {
    let mut rt = Runtime::new();
    let ptrs = values.iter().map(|v| ArcCown::new(&mut rt, *v)).collect();
    (rt, ptrs)
}

fn req(behavior: u64, index: usize) -> ReqId {
    ReqId { behavior, index }
}

fn when<C: CownList<i64>>(rt: &mut Rt, cowns: &C, f: &'static str) -> (u64, Progress) {
    Behaviour::new(cowns, f).schedule(rt)
}

fn enlist(rt: &mut Rt, cowns: &Ints, f: &'static str) -> u64 {
    Behaviour::new::<i64, Ints>(cowns, f).enlist(rt)
}

/// Gives back all cowns of `b` and says who became ready.
fn give_back(rt: &mut Rt, b: u64) -> Vec<u64> {
    let mut ready = Vec::new();
    Behaviour::complete(rt, b);
    loop {
        match Behaviour::release(rt, b) {
            Progress::Ready(next) => ready.push(next),
            Progress::Finished => return ready,
            Progress::Advanced => {}
            other => panic!("stuck: {:?}", other),
        }
    }
}

#[test]
fn locked_behaviour_without_cowns_is_ready() {
    let mut rt: Rt = Runtime::new();
    assert_eq!(when(&mut rt, &(), "only"), (0, Progress::Ready(0)));
    assert_eq!(rt.behaviour(0).count(), 0);
    assert_eq!(Behaviour::run(&mut rt, 0), "only");
    assert_eq!(give_back(&mut rt, 0), vec![]);
    assert!(!rt.is_live(0));
}

#[test]
fn a_new_locked_cown_is_not_in_use() {
    let (rt, c) = new_runtime(&[3]);
    assert_eq!(rt.cown_count(), 1);
    assert_eq!(rt.cown(0).last_request, None);
    assert_eq!(rt.cown(0).resource, Some(3));
    assert!(c[0].borrowed_at(&rt).is_none());
    assert_eq!(c[0].clone().into_dyn(), 0);
    assert_eq!(ResourceHolder::new(c[0].clone()), ResourceHolder { cown: 0 });
}

#[test]
fn a_new_request_is_initial() {
    let (_, c) = new_runtime(&[0, 0]);
    let r = Request::new(c[1].clone());
    assert_eq!(r.resource.cown, 1);
    assert_eq!(r.state, ResourceState::Initial);
    assert!(!r.scheduled);
    assert_eq!(r.callback, None);
}

#[test]
fn a_new_behaviour_counts_its_requests_and_its_scheduler() {
    let (mut rt, c) = new_runtime(&[0, 0, 0]);
    let list = (c[2].clone(), (c[0].clone(), (c[1].clone(), ())));
    let b = Behaviour::new::<i64, _>(&list, "f");
    assert_eq!(b.count(), 4);
    assert_eq!(b.size(), 3);
    let order: Vec<usize> = (0..3).map(|i| b.request(i).resource.cown).collect();
    assert_eq!(order, vec![0, 1, 2]);
    assert_eq!(b.enlist(&mut rt), 0);
}

#[test]
fn states_of_requests_follow_the_queue() {
    let (mut rt, c) = new_runtime(&[0]);
    assert_eq!(when(&mut rt, &c, "first"), (0, Progress::Ready(0)));
    assert_eq!(rt.request(req(0, 0)).state, ResourceState::Owned);
    assert_eq!(when(&mut rt, &c, "second"), (1, Progress::Pending));
    assert_eq!(rt.request(req(1, 0)).state, ResourceState::Certificate);
    assert_eq!(rt.request(req(0, 0)).callback, Some(req(1, 0)));
    assert_eq!(rt.cown(0).last_request, Some(req(1, 0)));
    assert_eq!(Behaviour::run(&mut rt, 0), "first");
    assert_eq!(give_back(&mut rt, 0), vec![1]);
    assert_eq!(rt.request(req(1, 0)).state, ResourceState::Owned);
    assert_eq!(Behaviour::run(&mut rt, 1), "second");
    assert_eq!(give_back(&mut rt, 1), vec![]);
    assert_eq!(rt.cown(0).last_request, None);
}

#[test]
fn locked_scheduling_is_made_of_single_steps() {
    let (mut rt, c) = new_runtime(&[0]);
    let b = enlist(&mut rt, &c, "f");
    let mut phases = vec![rt.behaviour(b).phase()];
    let mut last = Progress::Advanced;
    while last == Progress::Advanced {
        last = Behaviour::schedule_step(&mut rt, b);
        phases.push(rt.behaviour(b).phase());
    }
    assert_eq!(last, Progress::Ready(0));
    assert_eq!(
        phases,
        vec![
            Phase::Enqueue(0),
            Phase::Resolve(0),
            Phase::Enqueue(1),
            Phase::Finish(0),
            Phase::Finish(1),
            Phase::Ready,
        ]
    );
}

#[test]
fn a_locked_scheduler_waits_for_the_one_in_front() {
    let (mut rt, c) = new_runtime(&[0, 0]);
    let a = enlist(&mut rt, &c, "a");
    assert_eq!(Behaviour::schedule_step(&mut rt, a), Progress::Advanced);
    let b = enlist(&mut rt, &c, "b");
    assert_eq!(Behaviour::schedule_step(&mut rt, b), Progress::Advanced);
    assert_eq!(rt.behaviour(b).phase(), Phase::Wait(0, req(a, 0)));
    assert_eq!(Behaviour::schedule_step(&mut rt, b), Progress::Waiting);
    for _ in 0..5 {
        assert_eq!(Behaviour::schedule_step(&mut rt, a), Progress::Advanced);
    }
    assert_eq!(Behaviour::schedule_step(&mut rt, b), Progress::Advanced);
    assert_eq!(rt.behaviour(b).phase(), Phase::Enqueue(1));
}

#[test]
fn a_scheduler_passes_a_behaviour_that_is_gone() {
    let (mut rt, c) = new_runtime(&[0]);
    assert_eq!(when(&mut rt, &c, "a"), (0, Progress::Ready(0)));
    let b = enlist(&mut rt, &c, "b");
    assert_eq!(Behaviour::schedule_step(&mut rt, b), Progress::Advanced);
    Behaviour::run(&mut rt, 0);
    assert_eq!(give_back(&mut rt, 0), vec![]);
    assert!(!rt.is_live(0));
    assert_eq!(rt.request(req(b, 0)).state, ResourceState::Owned);
    assert_eq!(rt.behaviour(b).phase(), Phase::Wait(0, req(0, 0)));
    assert_eq!(Behaviour::schedule_step(&mut rt, b), Progress::Advanced);
    assert_eq!(Behaviour::schedule_step(&mut rt, b), Progress::Advanced);
    assert_eq!(Behaviour::schedule_step(&mut rt, b), Progress::Advanced);
    assert_eq!(Behaviour::schedule_step(&mut rt, b), Progress::Ready(b));
}

#[test]
fn releasing_hands_over_what_was_registered() {
    let (mut rt, c) = new_runtime(&[0]);
    when(&mut rt, &c, "a");
    when(&mut rt, &c, "b");
    Behaviour::run(&mut rt, 0);
    Behaviour::complete(&mut rt, 0);
    assert_eq!(rt.behaviour(0).phase(), Phase::Release(0));
    assert_eq!(Behaviour::release(&mut rt, 0), Progress::Advanced);
    assert_eq!(rt.behaviour(0).phase(), Phase::Notify(0, req(1, 0)));
    assert_eq!(rt.request(req(0, 0)).callback, None);
    assert_eq!(Behaviour::release(&mut rt, 0), Progress::Ready(1));
    assert_eq!(Behaviour::release(&mut rt, 0), Progress::Finished);
}

#[test]
fn borrowing_is_noted_and_forgotten() {
    let (mut rt, c) = new_runtime(&[5]);
    when(&mut rt, &c, "f");
    Behaviour::run(&mut rt, 0);
    let mut value = c[0].get_mut(&mut rt, 0, HERE);
    assert_eq!(*value.deref(), 5);
    let at = c[0].borrowed_at(&rt).unwrap();
    assert_eq!((at.file, at.line, at.column), ("locking.rs", 12, 1));
    assert_eq!(rt.cown(0).resource, None);
    *value.deref_mut() = 6;
    value.drop(&mut rt, 0);
    assert!(c[0].borrowed_at(&rt).is_none());
    assert_eq!(rt.cown(0).resource, Some(6));
    assert_eq!(give_back(&mut rt, 0), vec![]);
}

#[test]
fn lists_lend_and_return() {
    let (mut rt, c) = new_runtime(&[1, 2]);
    let list = (c[1].clone(), (c[0].clone(), ()));
    when(&mut rt, &list, "f");
    Behaviour::run(&mut rt, 0);
    let mut refs = CownList::<i64>::get_mut(&list, &mut rt, 0, HERE);
    assert_eq!((*refs.0.deref(), *(refs.1).0.deref()), (2, 1));
    *refs.0.deref_mut() = 20;
    *(refs.1).0.deref_mut() = 10;
    <(ArcCown<i64>, (ArcCown<i64>, ())) as CownList<i64>>::drop_refs(refs, &mut rt, 0);
    assert_eq!(rt.cown(0).resource, Some(10));
    assert_eq!(rt.cown(1).resource, Some(20));
}

#[test]
fn locked_vectors_lend_and_return() {
    let (mut rt, c) = new_runtime(&[1, 2, 3]);
    when(&mut rt, &c, "f");
    Behaviour::run(&mut rt, 0);
    let mut refs = CownList::<i64>::get_mut(&c, &mut rt, 0, HERE);
    for r in refs.iter_mut() {
        *r.deref_mut() *= 10;
    }
    <Ints as CownList<i64>>::drop_refs(refs, &mut rt, 0);
    for i in 0..3 {
        assert_eq!(rt.cown(i).resource, Some(10 * (i as i64 + 1)));
        assert!(c[i].borrowed_at(&rt).is_none());
    }
}

/// A number in a runtime of texts. Of the functions of [`Resource`], those that
/// only proofs speak of are never called.
struct Digits(u32);

impl Resource<String> for Digits {
    fn packed(self) -> String {
        unreachable!()
    }

    fn packs(_: String) -> bool {
        unreachable!()
    }

    fn pack(self) -> String {
        format!("{}", self.0)
    }

    fn unpack(v: String) -> Digits {
        Digits(v.parse().unwrap())
    }
}

#[test]
fn locked_values_of_different_types_share_a_runtime() {
    let mut rt: Runtime<String, ()> = Runtime::new();
    let d = ArcCown::new(&mut rt, Digits(41));
    let t = ArcCown::new(&mut rt, String::from("text"));
    let list = (d.clone(), (t.clone(), ()));
    assert_eq!(Behaviour::new(&list, ()).schedule(&mut rt), (0, Progress::Ready(0)));
    Behaviour::run(&mut rt, 0);
    let mut n = d.get_mut(&mut rt, 0, HERE);
    n.deref_mut().0 += 1;
    n.drop(&mut rt, 0);
    let s = t.get_mut(&mut rt, 0, HERE);
    assert_eq!(s.deref(), "text");
    s.drop(&mut rt, 0);
    assert_eq!(rt.cown(0).resource, Some(String::from("42")));
}

#[test]
fn a_locked_cown_asked_for_twice_is_never_acquired() {
    let (mut rt, c) = new_runtime(&[0]);
    let twice = (c[0].clone(), (c[0].clone(), ()));
    assert_eq!(when(&mut rt, &twice, "twice"), (0, Progress::Waiting));
    assert_eq!(Behaviour::schedule_step(&mut rt, 0), Progress::Waiting);
}

#[test]
fn locked_resolving_counts_down_to_ready() {
    let (mut rt, c) = new_runtime(&[0]);
    let b = enlist(&mut rt, &c, "f");
    assert!(!Behaviour::resolve_one(&mut rt, b));
    assert!(Behaviour::resolve_one(&mut rt, b));
    assert_eq!(rt.behaviour(b).phase(), Phase::Ready);
}

/// A circle of four cowns, each behaviour taking two neighbours.
#[test]
fn a_locked_circle_comes_to_an_end() {
    let (mut rt, c) = new_runtime(&[0, 0, 0, 0]);
    let mut ready = Vec::new();
    for i in 0..4 {
        let list = (c[i].clone(), (c[(i + 1) % 4].clone(), ()));
        if let (_, Progress::Ready(b)) = when(&mut rt, &list, "dine") {
            ready.push(b);
        }
    }
    let mut order = Vec::new();
    while let Some(b) = ready.pop() {
        Behaviour::run(&mut rt, b);
        order.push(b);
        ready.extend(give_back(&mut rt, b));
    }
    assert_eq!(order, vec![0, 1, 2, 3]);
    assert_eq!(rt.next_id(), 4);
}

/// Every interleaving of two schedulers on two shared cowns leaves both cowns
/// with the same order.
#[test]
fn every_locked_interleaving_gives_one_order() {
    for choices in 0u32..(1 << 12) {
        let (mut rt, c) = new_runtime(&[0, 0]);
        let names = [enlist(&mut rt, &c, "a"), enlist(&mut rt, &c, "b")];
        let mut done = [false, false];
        let mut ready = Vec::new();
        let mut k: u32 = 0;
        while !(done[0] && done[1]) {
            let first = if k < 12 { (choices >> k & 1) as usize } else { (k % 2) as usize };
            k += 1;
            let i = if done[first] { 1 - first } else { first };
            match Behaviour::schedule_step(&mut rt, names[i]) {
                Progress::Ready(b) => {
                    ready.push(b);
                    done[i] = true;
                }
                Progress::Pending => done[i] = true,
                _ => {}
            }
        }
        assert_eq!(ready.len(), 1);
        let winner = ready[0];
        let loser = 1 - winner;
        assert_eq!(rt.cown(0).last_request, Some(req(loser, 0)));
        assert_eq!(rt.cown(1).last_request, Some(req(loser, 1)));
        Behaviour::run(&mut rt, winner);
        assert_eq!(give_back(&mut rt, winner), vec![loser]);
    }
}

/// Borrowed, returned and borrowed again: one borrow at a time.
#[test]
fn one_locked_borrow_at_a_time() {
    let (mut rt, c) = new_runtime(&[1]);
    when(&mut rt, &c, "f");
    Behaviour::run(&mut rt, 0);
    for i in 0..3 {
        assert!(c[0].borrowed_at(&rt).is_none());
        let mut value = c[0].get_mut(&mut rt, 0, HERE);
        assert!(c[0].clone().borrowed_at(&rt).is_some());
        assert_eq!(*value.deref(), i + 1);
        *value.deref_mut() += 1;
        value.drop(&mut rt, 0);
    }
    assert_eq!(rt.cown(0).resource, Some(4));
}

#[test]
fn a_locked_value_is_reclaimed_when_nobody_asks() {
    let (mut rt, c) = new_runtime(&[8, 9]);
    when(&mut rt, &(c[0].clone(), ()), "f");
    assert_eq!(c[0].clone().reclaim(&mut rt, 0), None);
    assert_eq!(rt.cown(0).resource, Some(8));
    Behaviour::run(&mut rt, 0);
    assert_eq!(c[0].clone().reclaim(&mut rt, 0), None);
    give_back(&mut rt, 0);
    assert_eq!(c[0].clone().reclaim(&mut rt, -1), Some(8));
    assert_eq!(rt.cown(0).resource, Some(-1));
    assert_eq!(rt.cown(1).resource, Some(9));
}

/// A routine that holds a cown spawns behaviours for that cown and another one.
#[test]
fn a_locked_routine_spawns_while_it_holds_cowns() {
    let (mut rt, c) = new_runtime(&[0, 0]);
    assert_eq!(when(&mut rt, &(c[1].clone(), ()), "outer"), (0, Progress::Ready(0)));
    Behaviour::run(&mut rt, 0);
    assert_eq!(when(&mut rt, &c, "inner"), (1, Progress::Pending));
    assert_eq!(when(&mut rt, &(c[0].clone(), ()), "next"), (2, Progress::Pending));
    assert_eq!(give_back(&mut rt, 0), vec![1]);
    Behaviour::run(&mut rt, 1);
    assert_eq!(give_back(&mut rt, 1), vec![2]);
    Behaviour::run(&mut rt, 2);
    assert_eq!(give_back(&mut rt, 2), vec![]);
    assert_eq!(rt.cown(0).last_request, None);
    assert_eq!(rt.cown(1).last_request, None);
}

/// Giving back one of two cowns tells one behaviour, and leaves the other cown.
#[test]
fn giving_back_one_locked_cown_changes_nothing_else() {
    let (mut rt, c) = new_runtime(&[3, 4]);
    when(&mut rt, &c, "a");
    when(&mut rt, &c, "b");
    when(&mut rt, &(c[1].clone(), ()), "c");
    Behaviour::run(&mut rt, 0);
    Behaviour::complete(&mut rt, 0);
    assert_eq!(Behaviour::release(&mut rt, 0), Progress::Advanced);
    assert_eq!(Behaviour::release(&mut rt, 0), Progress::Advanced);
    assert_eq!(rt.behaviour(0).phase(), Phase::Release(1));
    assert_eq!(rt.behaviour(1).count(), 1);
    assert_eq!(rt.request(req(1, 0)).state, ResourceState::Owned);
    assert_eq!(rt.request(req(1, 1)).state, ResourceState::Certificate);
    assert_eq!(rt.behaviour(2).count(), 1);
    assert_eq!(rt.cown(0).last_request, Some(req(1, 0)));
    assert_eq!(rt.cown(1).last_request, Some(req(2, 0)));
    assert_eq!((rt.cown(0).resource, rt.cown(1).resource), (Some(3), Some(4)));
}

/// Routines that spawn further behaviours: all of them run, each once.
#[test]
fn every_locked_spawned_behaviour_runs_once() {
    let (mut rt, c) = new_runtime(&[0, 0, 0]);
    let mut ready = Vec::new();
    let mut started = Vec::new();
    if let (_, Progress::Ready(b)) = when(&mut rt, &c, "root") {
        ready.push(b);
    }
    while let Some(b) = ready.pop() {
        Behaviour::run(&mut rt, b);
        started.push(b);
        if rt.next_id() < 7 {
            for i in 0..2 {
                let list = (c[(b as usize + i) % 3].clone(), (c[(b as usize + i + 1) % 3].clone(), ()));
                if let (_, Progress::Ready(next)) = when(&mut rt, &list, "child") {
                    ready.push(next);
                }
            }
        }
        ready.extend(give_back(&mut rt, b));
    }
    started.sort();
    assert_eq!(started, (0..rt.next_id()).collect::<Vec<u64>>());
    assert_eq!(rt.next_id(), 7);
    for i in 0..3 {
        assert_eq!(rt.cown(i).last_request, None);
    }
}

/// Borrowing from one cown leaves the values of the others.
#[test]
fn a_locked_value_stays_while_others_are_borrowed() {
    let (mut rt, c) = new_runtime(&[5, 6]);
    when(&mut rt, &c, "f");
    Behaviour::run(&mut rt, 0);
    let mut value = c[1].get_mut(&mut rt, 0, HERE);
    *value.deref_mut() += 1;
    assert_eq!(rt.cown(0).resource, Some(5));
    value.drop(&mut rt, 0);
    give_back(&mut rt, 0);
    assert_eq!((rt.cown(0).resource, rt.cown(1).resource), (Some(5), Some(7)));
}
