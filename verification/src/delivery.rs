//! Passes that hand prepared bodies to a sink.
use vstd::prelude::*;

use crate::archive;
use crate::archive::{EntrySink, SinkEvent, SinkStep};
use crate::error::{Error, ErrorView};

verus! {

/// One entry that is ready for a sink.
#[derive(Debug)]
pub struct Delivery {
    pub idx: usize,
    /// What could be read of the body.
    pub body: Vec<u8>,
    /// Why the rest of the body could not be read.
    pub failure: Option<Error>,
    /// Why the pass cannot go on when the sink does not want the body.
    pub drain: Option<Error>,
}

/// A `Delivery` with its body and errors as their models.
pub struct DeliveryView {
    pub idx: int,
    pub body: Seq<u8>,
    pub failure: Option<ErrorView>,
    pub drain: Option<ErrorView>,
}

/// The model of a possible error.
pub open spec fn opt_error(e: Option<Error>) -> Option<ErrorView> {
    match e {
        Some(x) => Some(x@),
        None => None,
    }
}

impl View for Delivery {
    type V = DeliveryView;

    open spec fn view(&self) -> DeliveryView {
        DeliveryView {
            idx: self.idx as int,
            body: self.body@,
            failure: opt_error(self.failure),
            drain: opt_error(self.drain),
        }
    }
}

/// One step of a pass.
pub enum Task {
    Entry(DeliveryView),
    /// The pass cannot go on.
    Fail(ErrorView),
}

/// What becomes of a pass after an entry.
pub enum Verdict {
    Go,
    Stop,
    Abort(ErrorView),
}

/// A pass that failed where it did not come to its end.
pub open spec fn aborted(failure: Option<ErrorView>) -> Verdict {
    match failure {
        Some(e) => Verdict::Abort(e),
        None => Verdict::Go,
    }
}

/// The outcome of a body: the sink's refusal outranks a failure to read.
pub open spec fn outcome_of(refusal: Result<(), ErrorView>, failure: Option<ErrorView>) -> Result<(), ErrorView> {
    match (refusal, failure) {
        (Err(e), _) => Err(e),
        (Ok(()), Some(e)) => Err(e),
        (Ok(()), None) => Ok(()),
    }
}

/// The verdict of the answer to `end`, if `event` is the right call of it.
pub open spec fn after_end(d: DeliveryView, outcome: Result<(), ErrorView>, event: SinkEvent) -> Option<Verdict> {
    match event {
        SinkEvent::End { idx, outcome: o, answer } if idx == d.idx && o == outcome => Some(
            match answer {
                Ok(true) => Verdict::Go,
                Ok(false) => Verdict::Stop,
                Err(e) => Verdict::Abort(e),
            },
        ),
        _ => None,
    }
}

/// How many calls the delivery of an entry takes, going by the first of them.
/// An empty body is not written.
pub open spec fn calls_for(d: DeliveryView, first: SinkEvent) -> int {
    match first {
        SinkEvent::Begin { answer: Ok(SinkStep::Body), .. } => if d.body.len() == 0 { 2 } else { 3 },
        _ => 1,
    }
}

/// What the calls for one entry come to; `None` where they are not the right calls.
pub open spec fn verdict_of(d: DeliveryView, events: Seq<SinkEvent>) -> Option<Verdict> {
    if events.len() == 0 || events.len() != calls_for(d, events[0]) {
        None
    } else {
        match events[0] {
            SinkEvent::Begin { idx, answer } if idx == d.idx => match answer {
                Err(e) => Some(Verdict::Abort(e)),
                Ok(SinkStep::Stop) => Some(Verdict::Stop),
                Ok(SinkStep::Skip) => Some(aborted(d.drain)),
                Ok(SinkStep::Body) => if d.body.len() == 0 {
                    after_end(d, outcome_of(Ok(()), d.failure), events[1])
                } else {
                    match events[1] {
                        SinkEvent::Wrote { body, answer: refusal } if body == d.body => after_end(
                            d,
                            outcome_of(refusal, d.failure),
                            events[2],
                        ),
                        _ => None,
                    }
                },
            },
            _ => None,
        }
    }
}

/// `events` are the calls of a pass through `tasks`, and `result` is what it comes to.
pub open spec fn delivered(tasks: Seq<Task>, events: Seq<SinkEvent>, result: Result<(), ErrorView>) -> bool
    decreases tasks.len(),
{
    if tasks.len() == 0 {
        events.len() == 0 && result is Ok
    } else {
        match tasks[0] {
            Task::Fail(e) => events.len() == 0 && result == Err::<(), ErrorView>(e),
            Task::Entry(d) => {
                let n = calls_for(d, events[0]);
                n <= events.len() && match verdict_of(d, events.take(n)) {
                    None => false,
                    Some(Verdict::Go) => delivered(tasks.skip(1), events.skip(n), result),
                    Some(Verdict::Stop) => events.len() == n && result is Ok,
                    Some(Verdict::Abort(e)) => events.len() == n && result == Err::<(), ErrorView>(e),
                }
            },
        }
    }
}

/// The verdict of a delivery as the code returns it.
pub open spec fn verdict_view(r: Result<bool, Error>) -> Verdict {
    match r {
        Ok(true) => Verdict::Go,
        Ok(false) => Verdict::Stop,
        Err(e) => Verdict::Abort(e@),
    }
}

/// Hand one entry to the sink. `false` ends the pass.
pub fn deliver<S: EntrySink>(d: Delivery, sink: &mut S) -> (r: Result<bool, Error>)
    ensures
        final(sink).history().len() >= old(sink).history().len(),
        final(sink).history().take(old(sink).history().len() as int) == old(sink).history(),
        verdict_of(d@, final(sink).history().skip(old(sink).history().len() as int)) == Some(verdict_view(r)),
{
    let ghost before = sink.history();
    let ghost n = before.len() as int;
    let ghost view = d@;
    let Delivery { idx, body, failure, drain } = d;
    let step = sink.begin(idx);
    let ghost e1 = sink.history().last();
    proof {
        assert(sink.history().skip(n) =~= seq![e1]);
        assert(sink.history().take(n) =~= before);
    }
    match step {
        Err(e) => Err(e),
        Ok(SinkStep::Stop) => Ok(false),
        Ok(SinkStep::Skip) => match drain {
            Some(e) => Err(e),
            None => Ok(true),
        },
        Ok(SinkStep::Body) => {
            let mut outcome: Result<(), Error> = Ok(());
            let ghost mut calls = seq![e1];
            if body.len() > 0 {
                outcome = sink.write_body(body.as_slice());
                proof {
                    calls = calls.push(sink.history().last());
                    assert(sink.history() =~= before + calls);
                }
            }
            let ghost refusal = archive::outcome_view(outcome);
            if outcome.is_ok() {
                outcome = match failure {
                    Some(e) => Err(e),
                    None => Ok(()),
                };
            }
            assert(archive::outcome_view(outcome) == outcome_of(refusal, view.failure));
            assert(sink.history() =~= before + calls);
            let answer = sink.end(idx, outcome);
            proof {
                let all = calls.push(sink.history().last());
                assert(sink.history().skip(n) =~= all);
                assert(sink.history().take(n) =~= before);
            }
            answer
        },
    }
}

/// What is left of a pass extends to the whole of it.
pub open spec fn leads_to(tasks: Seq<Task>, rest: Seq<Task>, sofar: Seq<SinkEvent>) -> bool {
    forall|tail: Seq<SinkEvent>, result: Result<(), ErrorView>|
        #[trigger] delivered(rest, tail, result) ==> delivered(tasks, sofar + tail, result)
}

/// Nothing done yet: all tasks are left.
pub proof fn starts(tasks: Seq<Task>)
    ensures
        leads_to(tasks, tasks, Seq::empty()),
{
    assert forall|tail: Seq<SinkEvent>, result: Result<(), ErrorView>|
        #[trigger] delivered(tasks, tail, result) implies delivered(tasks, Seq::empty() + tail, result) by {
        assert(Seq::<SinkEvent>::empty() + tail =~= tail);
    }
}

/// One entry further.
pub proof fn goes_on(tasks: Seq<Task>, rest: Seq<Task>, sofar: Seq<SinkEvent>, d: DeliveryView, calls: Seq<SinkEvent>)
    requires
        leads_to(tasks, rest, sofar),
        rest.len() > 0,
        rest[0] == Task::Entry(d),
        verdict_of(d, calls) == Some(Verdict::Go),
    ensures
        leads_to(tasks, rest.skip(1), sofar + calls),
{
    assert forall|tail: Seq<SinkEvent>, result: Result<(), ErrorView>|
        #[trigger] delivered(rest.skip(1), tail, result) implies delivered(tasks, (sofar + calls) + tail, result) by {
        assert((calls + tail).take(calls.len() as int) =~= calls);
        assert((calls + tail).skip(calls.len() as int) =~= tail);
        assert(delivered(rest, calls + tail, result));
        assert(sofar + (calls + tail) =~= (sofar + calls) + tail);
    }
}

/// The pass is over: the sink stopped it, or something failed.
pub proof fn comes_to_end(
    tasks: Seq<Task>,
    rest: Seq<Task>,
    sofar: Seq<SinkEvent>,
    d: DeliveryView,
    calls: Seq<SinkEvent>,
    result: Result<(), ErrorView>,
)
    requires
        leads_to(tasks, rest, sofar),
        rest.len() > 0,
        rest[0] == Task::Entry(d),
        match result {
            Ok(()) => verdict_of(d, calls) == Some(Verdict::Stop),
            Err(e) => verdict_of(d, calls) == Some(Verdict::Abort(e)),
        },
    ensures
        delivered(tasks, sofar + calls, result),
{
    assert(calls.take(calls.len() as int) =~= calls);
    assert(delivered(rest, calls, result));
}

/// The pass cannot go on.
pub proof fn breaks_off(tasks: Seq<Task>, rest: Seq<Task>, sofar: Seq<SinkEvent>, e: ErrorView)
    requires
        leads_to(tasks, rest, sofar),
        rest.len() > 0,
        rest[0] == Task::Fail(e),
    ensures
        delivered(tasks, sofar, Err(e)),
{
    let none = Seq::<SinkEvent>::empty();
    assert(delivered(rest, none, Err(e)));
    assert(sofar + none =~= sofar);
}

/// A pass through tasks keeps to the protocol of a sink.
pub proof fn deliveries_keep_protocol(tasks: Seq<Task>, events: Seq<SinkEvent>, result: Result<(), ErrorView>)
    requires
        delivered(tasks, events, result),
    ensures
        archive::protocol(events, None),
    decreases tasks.len(),
{
    reveal_with_fuel(archive::protocol, 4);
    if tasks.len() > 0 {
        match tasks[0] {
            Task::Fail(e) => {},
            Task::Entry(d) => {
                let n = calls_for(d, events[0]);
                let own = events.take(n);
                let rest = events.skip(n);
                if verdict_of(d, own) == Some(Verdict::Go) {
                    deliveries_keep_protocol(tasks.skip(1), rest, result);
                }
                assert(own[0] == events[0]);
                if n >= 2 {
                    assert(own[1] == events[1]);
                    assert(events.skip(1).skip(1) =~= events.skip(2));
                }
                if n == 3 {
                    assert(own[2] == events[2]);
                    assert(events.skip(2).skip(1) =~= events.skip(3));
                }
            },
        }
    }
}

/// The tasks of prepared deliveries, and of the failure behind them.
pub open spec fn tasks_of(deliveries: Seq<Delivery>, failure: Option<Error>) -> Seq<Task> {
    deliveries.map_values(|d: Delivery| Task::Entry(d@)) + match failure {
        Some(e) => seq![Task::Fail(e@)],
        None => Seq::empty(),
    }
}

/// `calls` are the calls of a pass through `part`, and the verdict says how the
/// pass goes on, whatever tasks come behind.
pub open spec fn part_done(part: Seq<Task>, calls: Seq<SinkEvent>, verdict: Verdict) -> bool {
    match verdict {
        Verdict::Go => forall|more: Seq<Task>| #[trigger] leads_to(part + more, more, calls),
        Verdict::Stop => forall|more: Seq<Task>| #[trigger] delivered(part + more, calls, Ok(())),
        Verdict::Abort(e) => forall|more: Seq<Task>| #[trigger] delivered(part + more, calls, Err(e)),
    }
}

/// A pass that has come to `part` goes on as the part does.
pub proof fn part_follows(
    tasks: Seq<Task>,
    part: Seq<Task>,
    more: Seq<Task>,
    sofar: Seq<SinkEvent>,
    calls: Seq<SinkEvent>,
    verdict: Verdict,
)
    requires
        leads_to(tasks, part + more, sofar),
        part_done(part, calls, verdict),
    ensures
        match verdict {
            Verdict::Go => leads_to(tasks, more, sofar + calls),
            Verdict::Stop => delivered(tasks, sofar + calls, Ok(())),
            Verdict::Abort(e) => delivered(tasks, sofar + calls, Err(e)),
        },
{
    match verdict {
        Verdict::Go => {
            assert(leads_to(part + more, more, calls));
            assert forall|tail: Seq<SinkEvent>, result: Result<(), ErrorView>|
                #[trigger] delivered(more, tail, result) implies delivered(tasks, (sofar + calls) + tail, result) by {
                assert(delivered(part + more, calls + tail, result));
                assert(sofar + (calls + tail) =~= (sofar + calls) + tail);
            }
        },
        Verdict::Stop => {
            assert(delivered(part + more, calls, Ok(())));
        },
        Verdict::Abort(e) => {
            assert(delivered(part + more, calls, Err(e)));
        },
    }
}

/// Hand prepared entries to the sink. `false` ends the pass.
pub fn deliver_all<S: EntrySink>(deliveries: Vec<Delivery>, failure: Option<Error>, sink: &mut S) -> (r: Result<bool, Error>)
    ensures
        final(sink).history().len() >= old(sink).history().len(),
        final(sink).history().take(old(sink).history().len() as int) == old(sink).history(),
        part_done(
            tasks_of(deliveries@, failure),
            final(sink).history().skip(old(sink).history().len() as int),
            verdict_view(r),
        ),
{
    let ghost part = tasks_of(deliveries@, failure);
    let ghost before = sink.history();
    let ghost mut sofar = Seq::<SinkEvent>::empty();
    let count: usize = deliveries.len();
    let mut left = deliveries;
    let mut k: usize = 0;
    proof {
        assert(part.skip(0) =~= part);
        assert forall|more: Seq<Task>| #[trigger] leads_to(part + more, part.skip(0) + more, sofar) by {
            starts(part + more);
        }
        assert(before + sofar =~= before);
    }
    while k < count
        invariant
            k <= count,
            count == deliveries.len(),
            left.len() == count,
            part == tasks_of(deliveries@, failure),
            before == old(sink).history(),
            sink.history() == before + sofar,
            forall|i: int| k <= i < count ==> #[trigger] left@[i] == deliveries@[i],
            forall|more: Seq<Task>| #[trigger] leads_to(part + more, part.skip(k as int) + more, sofar),
        decreases count - k,
    {
        let mut d = Delivery { idx: 0, body: Vec::new(), failure: None, drain: None };
        left.set_and_swap(k, &mut d);
        let ghost now = sink.history();
        let ghost view = d@;
        let answer = deliver(d, sink);
        let ghost calls = sink.history().skip(now.len() as int);
        proof {
            assert(view == deliveries@[k as int]@);
            assert(part[k as int] == Task::Entry(view));
            assert(sink.history() =~= sink.history().take(now.len() as int) + calls);
            assert(sink.history() =~= before + (sofar + calls));
            assert(sink.history().take(before.len() as int) =~= before);
            assert(sink.history().skip(before.len() as int) =~= sofar + calls);
        }
        match answer {
            Err(e) => {
                proof {
                    assert forall|more: Seq<Task>| #[trigger] delivered(part + more, sofar + calls, Err(e@)) by {
                        assert(leads_to(part + more, part.skip(k as int) + more, sofar));
                        comes_to_end(part + more, part.skip(k as int) + more, sofar, view, calls, Err(e@));
                    }
                }
                return Err(e);
            },
            Ok(false) => {
                proof {
                    assert forall|more: Seq<Task>| #[trigger] delivered(part + more, sofar + calls, Ok(())) by {
                        assert(leads_to(part + more, part.skip(k as int) + more, sofar));
                        comes_to_end(part + more, part.skip(k as int) + more, sofar, view, calls, Ok(()));
                    }
                }
                return Ok(false);
            },
            Ok(true) => {
                proof {
                    assert forall|more: Seq<Task>| #[trigger]
                        leads_to(part + more, part.skip(k + 1) + more, sofar + calls) by {
                        assert(leads_to(part + more, part.skip(k as int) + more, sofar));
                        goes_on(part + more, part.skip(k as int) + more, sofar, view, calls);
                        assert((part.skip(k as int) + more).skip(1) =~= part.skip(k + 1) + more);
                    }
                    sofar = sofar + calls;
                }
            },
        }
        k = k + 1;
    }
    proof {
        assert(sink.history().take(before.len() as int) =~= before);
        assert(sink.history().skip(before.len() as int) =~= sofar);
    }
    match failure {
        Some(e) => {
            proof {
                assert forall|more: Seq<Task>| #[trigger] delivered(part + more, sofar, Err(e@)) by {
                    assert(leads_to(part + more, part.skip(k as int) + more, sofar));
                    breaks_off(part + more, part.skip(k as int) + more, sofar, e@);
                }
            }
            Err(e)
        },
        None => {
            proof {
                assert forall|more: Seq<Task>| #[trigger] leads_to(part + more, more, sofar) by {
                    assert(leads_to(part + more, part.skip(k as int) + more, sofar));
                    assert(part.skip(k as int) + more =~= more);
                }
            }
            Ok(true)
        },
    }
}

/// What a sink received, entry by entry: which one, its body, and how it ended.
pub open spec fn received(events: Seq<SinkEvent>) -> Seq<(int, Seq<u8>, Result<(), ErrorView>)>
    decreases events.len(),
{
    if events.len() < 2 {
        Seq::empty()
    } else {
        match (events[0], events[1]) {
            (SinkEvent::Begin { idx, .. }, SinkEvent::End { outcome, .. }) => seq![(idx, Seq::<u8>::empty(), outcome)]
                + received(events.skip(2)),
            (SinkEvent::Begin { idx, .. }, SinkEvent::Wrote { body, .. }) => if events.len() < 3 {
                Seq::empty()
            } else {
                match events[2] {
                    SinkEvent::End { outcome, .. } => seq![(idx, body, outcome)] + received(events.skip(3)),
                    _ => Seq::empty(),
                }
            },
            _ => Seq::empty(),
        }
    }
}

/// A sink that takes everything receives each entry of a pass in turn, with all that could
/// be read of its body, and is told whether that was all of it. Then the pass succeeds, or
/// fails where it cannot go on.
#[verifier::rlimit(40)]
pub proof fn willing_sink_receives_each_entry(tasks: Seq<Task>, events: Seq<SinkEvent>, result: Result<(), ErrorView>)
    requires
        delivered(tasks, events, result),
        archive::takes_all(events),
        forall|k: int| 0 <= k < tasks.len() - 1 ==> (#[trigger] tasks[k]) is Entry,
    ensures
        tasks.len() > 0 && tasks.last() is Fail ==> result == Err::<(), ErrorView>(tasks.last()->Fail_0) && received(events).len()
            == tasks.len() - 1,
        tasks.len() == 0 || tasks.last() is Entry ==> result is Ok && received(events).len() == tasks.len(),
        forall|k: int|
            #![trigger tasks[k]]
            0 <= k < received(events).len() ==> {
                let d = tasks[k]->Entry_0;
                &&& received(events)[k].0 == d.idx
                &&& received(events)[k].1 == d.body
                &&& received(events)[k].2 == match d.failure {
                    Some(e) => Err::<(), ErrorView>(e),
                    None => Ok(()),
                }
            },
    decreases tasks.len(),
{
    if tasks.len() > 0 && tasks[0] is Entry {
        let d = tasks[0]->Entry_0;
        let n = calls_for(d, events[0]);
        let calls = events.take(n);
        let rest = events.skip(n);
        assert(verdict_of(d, calls) is Some);
        assert(calls[0] == events[0]);
        assert(events[0] matches SinkEvent::Begin { answer, .. } && answer == Ok::<SinkStep, ErrorView>(SinkStep::Body));
        if d.body.len() == 0 {
            assert(calls[1] == events[1]);
            assert(events[1] is End);
            assert(d.body =~= Seq::<u8>::empty());
        } else {
            assert(calls[1] == events[1] && calls[2] == events[2]);
            assert(events[1] is Wrote && events[2] is End);
            assert(events[1] matches SinkEvent::Wrote { answer, .. } && answer == Ok::<(), ErrorView>(()));
        }
        assert(events[n - 1] matches SinkEvent::End { answer, .. } && answer == Ok::<bool, ErrorView>(true));
        assert(verdict_of(d, calls) == Some(Verdict::Go));
        assert(archive::takes_all(rest)) by {
            assert forall|k: int| 0 <= k < rest.len() implies match #[trigger] rest[k] {
                SinkEvent::Begin { answer, .. } => answer == Ok::<SinkStep, ErrorView>(SinkStep::Body),
                SinkEvent::Wrote { answer, .. } => answer == Ok::<(), ErrorView>(()),
                SinkEvent::End { answer, .. } => answer == Ok::<bool, ErrorView>(true),
            } by {
                assert(rest[k] == events[k + n]);
            }
        }
        let others = tasks.skip(1);
        assert forall|k: int| 0 <= k < others.len() - 1 implies (#[trigger] others[k]) is Entry by {
            assert(others[k] == tasks[k + 1]);
        }
        willing_sink_receives_each_entry(others, rest, result);
        let first = received(events)[0];
        assert(received(events) =~= seq![first] + received(rest));
        if others.len() > 0 {
            assert(others.last() == tasks.last());
        } else {
            assert(tasks.last() == tasks[0]);
        }
        assert forall|k: int| #![trigger tasks[k]] 0 <= k < received(events).len() implies {
            let d = tasks[k]->Entry_0;
            &&& received(events)[k].0 == d.idx
            &&& received(events)[k].1 == d.body
            &&& received(events)[k].2 == match d.failure {
                Some(e) => Err::<(), ErrorView>(e),
                None => Ok(()),
            }
        } by {
            if k > 0 {
                assert(others[k - 1] == tasks[k]);
                assert(received(events)[k] == received(rest)[k - 1]);
            }
        }
    } else if tasks.len() > 1 {
        assert(tasks[0] is Entry);
    }
}

} // verus!
