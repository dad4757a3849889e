//! Of several equal calls at one time only one goes to the backend.
//!
//! The first call for a key leads: it goes to the backend. A call for a key that
//! is under way joins. When the call that leads is over, each one that joined gets
//! a copy of its result, be it an answer or an error.

use crate::cache;
use crate::proxy;
use dashmap::DashMap;
use std::sync::Arc;
use vstd::prelude::*;

verus! {

/// What the table of calls under way holds: for each key the callers that joined,
/// in the order in which they stand in the table's value.
pub uninterp spec fn flights_of(m: DashMap<String, Vec<u64>>) -> Map<Seq<char>, Seq<u64>>;

/// `DashMap::new`: an empty table.
#[verifier::external_body]
fn flights_new() -> (m: DashMap<String, Vec<u64>>)
    ensures
        (flights_of(m) == Map::<Seq<char>, Seq<u64>>::empty()),
{
    DashMap::new()
}

/// `DashMap::get`: a clone of the value under a key, if there is one.
#[verifier::external_body]
fn flights_get(m: &DashMap<String, Vec<u64>>, key: &str) -> (r: Option<Vec<u64>>)
    ensures
        (match r {
            Some(joined) => flights_of(*m).contains_key(key@) && flights_of(*m)[key@] == joined@,
            None => !flights_of(*m).contains_key(key@),
        }),
{
    m.get(key).map(|entry| entry.value().clone())
}

/// `DashMap::insert`: a value under a key, in place of the one before.
#[verifier::external_body]
fn flights_insert(m: &mut DashMap<String, Vec<u64>>, key: String, joined: Vec<u64>)
    ensures
        flights_of(*final(m)) == flights_of(*old(m)).insert(key@, joined@),
{
    m.insert(key, joined);
}

/// `DashMap::remove`: no value under a key any more.
#[verifier::external_body]
fn flights_remove(m: &mut DashMap<String, Vec<u64>>, key: &str)
    ensures
        flights_of(*final(m)) == flights_of(*old(m)).remove(key@),
{
    m.remove(key);
}

/// A result that all calls for a key share.
pub type Shared<T> = Arc<T>;

/// The keys of the calls under way, each with the callers that joined.
pub type Flights = Map<Seq<char>, Seq<u64>>;

/// What a call for a key does.
#[derive(Debug, Clone, Copy, PartialEq, Eq, Structural)]
pub enum Role {
    /// It goes to the backend, and `finish` is owed for the key.
    Lead,
    /// It waits for the result of the call that leads.
    Join,
}

/// The calls under way.
pub struct SingleFlight {
    inflight: DashMap<String, Vec<u64>>,
}

impl View for SingleFlight {
    type V = Flights;

    closed spec fn view(&self) -> Flights {
        flights_of(self.inflight)
    }
}

/// What a call for `key` does while the calls of `flights` are under way.
pub open spec fn role_for(flights: Flights, key: Seq<char>) -> Role {
    if flights.contains_key(key) {
        Role::Join
    } else {
        Role::Lead
    }
}

/// The calls under way after one more call for `key`.
pub open spec fn after_call(flights: Flights, key: Seq<char>, caller: u64) -> Flights {
    if flights.contains_key(key) {
        flights.insert(key, flights[key].push(caller))
    } else {
        flights.insert(key, Seq::empty())
    }
}

/// Who gets what when the call for `key` is over with `reply`: each caller that
/// joined, in order, a copy of the reply.
pub open spec fn handed_out(
    flights: Flights,
    key: Seq<char>,
    reply: Result<Seq<char>, Seq<char>>,
) -> Seq<(u64, Result<Seq<char>, Seq<char>>)> {
    if flights.contains_key(key) {
        Seq::new(flights[key].len(), |i: int| (flights[key][i], reply))
    } else {
        Seq::empty()
    }
}

/// What a list of callers and replies holds.
pub open spec fn deliveries(list: Seq<(u64, Result<Shared<String>, String>)>) -> Seq<
    (u64, Result<Seq<char>, Seq<char>>),
> {
    list.map_values(
        |d: (u64, Result<Shared<String>, String>)| (d.0, proxy::reply_view(d.1)),
    )
}

/// A copy of a reply. The text of an answer is shared.
fn copy_reply(reply: &Result<Shared<String>, String>) -> (r: Result<Shared<String>, String>)
    ensures
        proxy::reply_view(r) == proxy::reply_view(*reply),
{
    match reply {
        Ok(payload) => Ok(cache::share(payload)),
        Err(reason) => Err(reason.clone()),
    }
}

impl Default for SingleFlight {
    fn default() -> (r: Self)
        ensures
            r@ == Map::<Seq<char>, Seq<u64>>::empty(),
    {
        SingleFlight::new()
    }
}

impl SingleFlight {
    /// No call is under way.
    pub fn new() -> (r: SingleFlight)
        ensures
            r@ == Map::<Seq<char>, Seq<u64>>::empty(),
    {
        SingleFlight { inflight: flights_new() }
    }

    /// Lead the call for a key, or join the one that is under way. `caller` is how
    /// the caller is told from others when the result is handed out.
    pub fn do_or_join(&mut self, key: &str, caller: u64) -> (r: Role)
        ensures
            r == role_for(old(self)@, key@),
            final(self)@ == after_call(old(self)@, key@, caller),
    {
        match flights_get(&self.inflight, key) {
            Some(joined) => {
                let mut joined = joined;
                joined.push(caller);
                flights_insert(&mut self.inflight, key.to_string(), joined);
                Role::Join
            },
            None => {
                let none: Vec<u64> = Vec::new();
                assert(none@ =~= Seq::empty());
                flights_insert(&mut self.inflight, key.to_string(), none);
                Role::Lead
            },
        }
    }

    /// The call for a key is over, whatever came of it. Each caller that joined is
    /// given a copy of the reply.
    pub fn finish(&mut self, key: &str, reply: &Result<Shared<String>, String>) -> (r: Vec<
        (u64, Result<Shared<String>, String>),
    >)
        ensures
            final(self)@ == old(self)@.remove(key@),
            deliveries(r@) == handed_out(old(self)@, key@, proxy::reply_view(*reply)),
    {
        let mut out: Vec<(u64, Result<Shared<String>, String>)> = Vec::new();
        match flights_get(&self.inflight, key) {
            Some(joined) => {
                let mut i: usize = 0;
                while i < joined.len()
                    invariant
                        i <= joined@.len(),
                        out@.len() == i,
                        forall|k: int|
                            0 <= k < i ==> (#[trigger] out@[k]).0 == joined@[k]
                                && proxy::reply_view(out@[k].1) == proxy::reply_view(*reply),
                    decreases joined@.len() - i,
                {
                    out.push((joined[i], copy_reply(reply)));
                    i = i + 1;
                }
            },
            None => {},
        }
        flights_remove(&mut self.inflight, key);
        assert(deliveries(out@) =~= handed_out(old(self)@, key@, proxy::reply_view(*reply)));
        out
    }
}

/// The error of a call that joined one which went away without a result.
pub fn leader_lost(reason: &str) -> (r: String)
    ensures
        r@ == "singleflight: канал лидера упал: "@ + reason@,
{
    let mut out: String = "singleflight: канал лидера упал: ".to_string();
    out.append(reason);
    out
}

/// The calls under way after some calls, each with its key and its caller, none
/// of which is over yet.
pub open spec fn after_calls(flights: Flights, calls: Seq<(Seq<char>, u64)>) -> Flights
    decreases calls.len(),
{
    if calls.len() == 0 {
        flights
    } else {
        after_call(after_calls(flights, calls.drop_last()), calls.last().0, calls.last().1)
    }
}

/// The callers of the calls for a key, in order.
pub open spec fn callers_for(calls: Seq<(Seq<char>, u64)>, key: Seq<char>) -> Seq<u64>
    decreases calls.len(),
{
    if calls.len() == 0 {
        Seq::empty()
    } else if calls.last().0 == key {
        callers_for(calls.drop_last(), key).push(calls.last().1)
    } else {
        callers_for(calls.drop_last(), key)
    }
}

/// Who has joined the call for a key after some calls.
proof fn lemma_after_calls(flights: Flights, calls: Seq<(Seq<char>, u64)>, key: Seq<char>)
    ensures
        ({
            let after = after_calls(flights, calls);
            let callers = callers_for(calls, key);
            &&& after.contains_key(key) <==> flights.contains_key(key) || callers.len() > 0
            &&& flights.contains_key(key) ==> after[key] == flights[key] + callers
            &&& !flights.contains_key(key) && callers.len() > 0 ==> after[key]
                == callers.drop_first()
        }),
    decreases calls.len(),
{
    if calls.len() > 0 {
        let head = calls.drop_last();
        let before = after_calls(flights, head);
        let callers = callers_for(head, key);
        lemma_after_calls(flights, head, key);
        if calls.last().0 == key {
            let caller = calls.last().1;
            if flights.contains_key(key) {
                assert((flights[key] + callers).push(caller) =~= flights[key] + callers.push(
                    caller,
                ));
            } else if callers.len() > 0 {
                assert(callers.drop_first().push(caller) =~= callers.push(caller).drop_first());
            } else {
                assert(callers.push(caller).drop_first() =~= Seq::empty());
            }
        }
    } else {
        assert(flights[key] + Seq::<u64>::empty() =~= flights[key]);
    }
}

/// Whether some calls are for a key.
proof fn lemma_callers_for(calls: Seq<(Seq<char>, u64)>, key: Seq<char>)
    ensures
        callers_for(calls, key).len() > 0 <==> exists|j: int|
            0 <= j < calls.len() && (#[trigger] calls[j]).0 == key,
    decreases calls.len(),
{
    if calls.len() > 0 {
        let head = calls.drop_last();
        lemma_callers_for(head, key);
        if calls.last().0 == key {
            assert(calls[calls.len() - 1].0 == key);
        } else if callers_for(head, key).len() > 0 {
            let j = choose|j: int| 0 <= j < head.len() && (#[trigger] head[j]).0 == key;
            assert(calls[j].0 == key);
        } else if exists|j: int| 0 <= j < calls.len() && (#[trigger] calls[j]).0 == key {
            let j = choose|j: int| 0 <= j < calls.len() && (#[trigger] calls[j]).0 == key;
            assert(head[j].0 == key);
        }
    }
}

/// Of calls that come in before the first is over, a key is led by its first
/// call and by no other.
pub proof fn law_one_call_leads(flights: Flights, calls: Seq<(Seq<char>, u64)>, i: int)
    requires
        0 <= i < calls.len(),
    ensures
        role_for(after_calls(flights, calls.take(i)), calls[i].0) == Role::Lead <==> (
        !flights.contains_key(calls[i].0) && forall|j: int|
            0 <= j < i ==> (#[trigger] calls[j]).0 != calls[i].0),
{
    let key = calls[i].0;
    let part = calls.take(i);
    lemma_after_calls(flights, part, key);
    lemma_callers_for(part, key);
    if exists|j: int| 0 <= j < i && (#[trigger] calls[j]).0 == key {
        let j = choose|j: int| 0 <= j < i && (#[trigger] calls[j]).0 == key;
        assert(part[j].0 == key);
    } else {
        assert forall|j: int| 0 <= j < part.len() implies (#[trigger] part[j]).0 != key by {
            assert(calls[j].0 == part[j].0);
        }
    }
}

/// Of overlapping calls for a key all share the outcome of the one that leads,
/// be it an answer or an error: the first caller has it, each of the others is
/// handed a copy. After that the key is free.
pub proof fn law_overlapping_calls_share_one_outcome(
    flights: Flights,
    calls: Seq<(Seq<char>, u64)>,
    key: Seq<char>,
    reply: Result<Seq<char>, Seq<char>>,
)
    requires
        !flights.contains_key(key),
        callers_for(calls, key).len() > 0,
    ensures
        ({
            let callers = callers_for(calls, key);
            let out = handed_out(after_calls(flights, calls), key, reply);
            &&& out.len() == callers.len() - 1
            &&& forall|i: int|
                0 <= i < out.len() ==> #[trigger] out[i] == (callers[i + 1], reply)
            &&& role_for(after_calls(flights, calls).remove(key), key) == Role::Lead
        }),
{
    lemma_after_calls(flights, calls, key);
}

/// Once a call is over, the next one for its key leads again, and calls for
/// other keys are as they were.
pub proof fn law_finished_key_is_free(flights: Flights, key: Seq<char>, other: Seq<char>)
    ensures
        role_for(flights.remove(key), key) == Role::Lead,
        other != key ==> role_for(flights.remove(key), other) == role_for(flights, other),
        other != key && flights.contains_key(other) ==> flights.remove(key)[other]
            == flights[other],
{
}

/// When a call is over, each caller that joined it gets its reply, in the order in
/// which they joined, and nobody else gets anything.
pub proof fn law_reply_goes_to_those_who_joined(
    flights: Flights,
    key: Seq<char>,
    reply: Result<Seq<char>, Seq<char>>,
)
    ensures
        flights.contains_key(key) ==> {
            &&& handed_out(flights, key, reply).len() == flights[key].len()
            &&& forall|i: int|
                0 <= i < flights[key].len() ==> #[trigger] handed_out(flights, key, reply)[i] == (
                    flights[key][i],
                    reply,
                )
        },
        !flights.contains_key(key) ==> handed_out(flights, key, reply).len() == 0,
{
}

/// A call that joins is put behind those that joined before, one that leads waits
/// for nobody, and calls for other keys stay as they were.
pub proof fn law_call_joins_its_own_key(
    flights: Flights,
    key: Seq<char>,
    caller: u64,
    other: Seq<char>,
)
    ensures
        ({
            let after = after_call(flights, key, caller);
            &&& after.contains_key(key)
            &&& role_for(flights, key) == Role::Join <==> flights.contains_key(key)
            &&& flights.contains_key(key) ==> after[key] == flights[key].push(caller)
            &&& !flights.contains_key(key) ==> after[key].len() == 0
            &&& other != key ==> after.contains_key(other) == flights.contains_key(other)
            &&& other != key && flights.contains_key(other) ==> after[other] == flights[other]
        }),
{
}

} // verus!
