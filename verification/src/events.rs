//! Values that are built up from events.
use vstd::prelude::*;

verus! {

/// A value that is built up from events.
pub trait FromEvent: Sized {
    type Event;

    type Error;

    /// Adds one event.
    fn add_event(self, event: Self::Event) -> Result<Self, Self::Error>;

    /// Adds the events in order, up to the first that is refused: what
    /// comes back is the value after the last event, or the error of the
    /// first event that was refused. `trace` names the values on the way,
    /// `self` first; each comes from the one before by a call of
    /// `add_event`.
    fn add_events(self, events: Vec<Self::Event>) -> (r: Result<Self, Self::Error>)
        ensures
            exists|trace: Seq<Self>|
                {
                    &&& 1 <= trace.len() <= events@.len() + 1
                    &&& trace[0] == self
                    &&& forall|i: int|
                        0 <= i < trace.len() - 1 ==> call_ensures(
                            Self::add_event,
                            (#[trigger] trace[i], events@[i]),
                            Ok::<Self, Self::Error>(trace[i + 1]),
                        )
                    &&& match r {
                        Ok(v) => trace.len() == events@.len() + 1 && v == trace.last(),
                        Err(e) => trace.len() <= events@.len() && call_ensures(
                            Self::add_event,
                            (trace.last(), events@[trace.len() - 1]),
                            Err::<Self, Self::Error>(e),
                        ),
                    }
                },
    {
        let ghost all = events@;
        let ghost mut trace: Seq<Self> = seq![self];
        let mut res = self;
        for event in it: events
            invariant
                it.seq() == all,
                trace.len() == it.index() + 1,
                trace[0] == self,
                trace.last() == res,
                forall|i: int|
                    0 <= i < trace.len() - 1 ==> call_ensures(
                        Self::add_event,
                        (#[trigger] trace[i], all[i]),
                        Ok::<Self, Self::Error>(trace[i + 1]),
                    ),
        {
            match res.add_event(event) {
                Ok(next) => {
                    res = next;
                    proof {
                        trace = trace.push(next);
                    }
                },
                Err(e) => {
                    return Err(e);
                },
            }
        }
        Ok(res)
    }

    /// Adds the events to the default value, as `add_events` does.
    fn from_events(events: Vec<Self::Event>) -> (r: Result<Self, Self::Error>) where
        Self: Default,

        ensures
            exists|trace: Seq<Self>|
                {
                    &&& 1 <= trace.len() <= events@.len() + 1
                    &&& call_ensures(Self::default, (), trace[0])
                    &&& forall|i: int|
                        0 <= i < trace.len() - 1 ==> call_ensures(
                            Self::add_event,
                            (#[trigger] trace[i], events@[i]),
                            Ok::<Self, Self::Error>(trace[i + 1]),
                        )
                    &&& match r {
                        Ok(v) => trace.len() == events@.len() + 1 && v == trace.last(),
                        Err(e) => trace.len() <= events@.len() && call_ensures(
                            Self::add_event,
                            (trace.last(), events@[trace.len() - 1]),
                            Err::<Self, Self::Error>(e),
                        ),
                    }
                },
    {
        let res: Self = Default::default();
        res.add_events(events)
    }
}

} // verus!
