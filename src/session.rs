use vstd::prelude::*;

use crate::allow_set::AllowSet;
use crate::control::{after_authorizing, lemma_authorized_set};

verus! {

/// Where one inbound connection stands.
#[derive(Debug, Clone, Copy, PartialEq, Eq, Structural)]
pub enum Phase {
    /// Accepted, admission not yet decided.
    Accepted,
    /// Admitted; the outbound connection is being opened.
    Connecting,
    /// Bytes are being copied both ways.
    Forwarding,
    /// Both sockets are closed; nothing more happens.
    Closed,
}

/// What the runtime reports back to a session.
#[derive(Debug, Clone, Copy, PartialEq, Eq, Structural)]
pub enum Event {
    /// Result of the allow-set lookup for the peer's address.
    Admission { allowed: bool },
    Connected,
    ConnectFailed,
    /// One direction reached end of stream.
    Finished,
    /// An I/O error during forwarding.
    Failed,
    /// The forwarding deadline elapsed.
    TimedOut,
}

/// What the runtime must do next for a session.
#[derive(Debug, Clone, Copy, PartialEq, Eq, Structural)]
pub enum Action {
    /// Open the outbound connection to the destination.
    Connect,
    /// Copy bytes both ways, under the deadline if one is configured.
    Forward,
    /// Close both sockets, silently.
    Close,
    /// Nothing to do.
    Idle,
}

/// The next phase and action of a session in phase `p` on event `e`. An event that does not
/// belong to the phase changes nothing.
pub open spec fn transition(p: Phase, e: Event) -> (Phase, Action) {
    match (p, e) {
        (Phase::Accepted, Event::Admission { allowed }) => if allowed {
            (Phase::Connecting, Action::Connect)
        } else {
            (Phase::Closed, Action::Close)
        },
        (Phase::Connecting, Event::Connected) => (Phase::Forwarding, Action::Forward),
        (Phase::Connecting, Event::ConnectFailed) => (Phase::Closed, Action::Close),
        (Phase::Forwarding, Event::Finished) => (Phase::Closed, Action::Close),
        (Phase::Forwarding, Event::Failed) => (Phase::Closed, Action::Close),
        (Phase::Forwarding, Event::TimedOut) => (Phase::Closed, Action::Close),
        _ => (p, Action::Idle),
    }
}

/// The phase reached from `p` after the events `evs`, in order.
pub open spec fn phase_after(p: Phase, evs: Seq<Event>) -> Phase
    decreases evs.len(),
{
    if evs.len() == 0 {
        p
    } else {
        phase_after(transition(p, evs[0]).0, evs.drop_first())
    }
}

/// The actions asked for from `p` on the events `evs`, one per event.
pub open spec fn actions_after(p: Phase, evs: Seq<Event>) -> Seq<Action>
    decreases evs.len(),
{
    if evs.len() == 0 {
        Seq::empty()
    } else {
        seq![transition(p, evs[0]).1] + actions_after(transition(p, evs[0]).0, evs.drop_first())
    }
}

/// Advances a session by one event.
pub fn step(p: Phase, e: Event) -> (r: (Phase, Action))
    ensures
        r == transition(p, e),
{
    match (p, e) {
        (Phase::Accepted, Event::Admission { allowed }) => if allowed {
            (Phase::Connecting, Action::Connect)
        } else {
            (Phase::Closed, Action::Close)
        },
        (Phase::Connecting, Event::Connected) => (Phase::Forwarding, Action::Forward),
        (Phase::Connecting, Event::ConnectFailed) => (Phase::Closed, Action::Close),
        (Phase::Forwarding, Event::Finished) => (Phase::Closed, Action::Close),
        (Phase::Forwarding, Event::Failed) => (Phase::Closed, Action::Close),
        (Phase::Forwarding, Event::TimedOut) => (Phase::Closed, Action::Close),
        _ => (p, Action::Idle),
    }
}

/// Decides admission of a connection accepted from `peer_ip` (its address without the port):
/// a point-in-time lookup in `allowed`.
pub fn on_accept(allowed: &AllowSet, peer_ip: &String) -> (r: (Phase, Action))
    ensures
        r == transition(Phase::Accepted, Event::Admission { allowed: allowed@.contains(peer_ip@) }),
        allowed@.contains(peer_ip@) ==> r == (Phase::Connecting, Action::Connect),
        !allowed@.contains(peer_ip@) ==> r == (Phase::Closed, Action::Close),
{
    let is_allowed = allowed.contains(peer_ip);
    step(Phase::Accepted, Event::Admission { allowed: is_allowed })
}

/// Running events from `p` is taking the first event's step, then running the rest.
proof fn lemma_run_first(p: Phase, evs: Seq<Event>)
    requires
        evs.len() > 0,
    ensures
        phase_after(p, evs) == phase_after(transition(p, evs[0]).0, evs.drop_first()),
        actions_after(p, evs) == seq![transition(p, evs[0]).1] + actions_after(
            transition(p, evs[0]).0,
            evs.drop_first(),
        ),
{
}

/// One action is asked for per event.
pub proof fn lemma_actions_len(p: Phase, evs: Seq<Event>)
    ensures
        actions_after(p, evs).len() == evs.len(),
    decreases evs.len(),
{
    if evs.len() > 0 {
        lemma_actions_len(transition(p, evs[0]).0, evs.drop_first());
    }
}

/// A closed session stays closed and asks for nothing, whatever is reported to it.
pub proof fn lemma_closed_is_final(evs: Seq<Event>)
    ensures
        phase_after(Phase::Closed, evs) == Phase::Closed,
        forall|i: int|
            0 <= i < evs.len() ==> #[trigger] actions_after(Phase::Closed, evs)[i] == Action::Idle,
    decreases evs.len(),
{
    if evs.len() > 0 {
        lemma_closed_is_final(evs.drop_first());
        lemma_actions_len(Phase::Closed, evs.drop_first());
        lemma_run_first(Phase::Closed, evs);
        assert(transition(Phase::Closed, evs[0]) == (Phase::Closed, Action::Idle));
        let rest = actions_after(Phase::Closed, evs.drop_first());
        let all = actions_after(Phase::Closed, evs);
        assert(all == seq![Action::Idle] + rest);
        assert forall|i: int| 0 <= i < evs.len() implies #[trigger] actions_after(
            Phase::Closed,
            evs,
        )[i] == Action::Idle by {
            if i > 0 {
                assert(all[i] == rest[i - 1]);
            }
        }
    }
}

/// A connection from an address that never called the authorize route is closed at once, and
/// no outbound connection is opened and no byte forwarded, whatever happens afterwards.
pub proof fn lemma_unauthorized_never_forwarded(
    calls: Seq<Seq<char>>,
    ip: Seq<char>,
    later: Seq<Event>,
)
    requires
        !calls.contains(ip),
    ensures
        ({
            let evs = seq![
                Event::Admission {
                    allowed: after_authorizing(Set::<Seq<char>>::empty(), calls).contains(ip),
                },
            ] + later;
            &&& transition(Phase::Accepted, evs[0]) == (Phase::Closed, Action::Close)
            &&& phase_after(Phase::Accepted, evs) == Phase::Closed
            &&& !actions_after(Phase::Accepted, evs).contains(Action::Connect)
            &&& !actions_after(Phase::Accepted, evs).contains(Action::Forward)
        }),
{
    lemma_authorized_set(Set::<Seq<char>>::empty(), calls);
    let allowed = after_authorizing(Set::<Seq<char>>::empty(), calls).contains(ip);
    assert(!allowed);
    let evs = seq![Event::Admission { allowed }] + later;
    assert(evs[0] == Event::Admission { allowed });
    assert(evs.drop_first() =~= later);
    lemma_run_first(Phase::Accepted, evs);
    lemma_closed_is_final(later);
    lemma_actions_len(Phase::Closed, later);
    let acts = actions_after(Phase::Accepted, evs);
    let tail = actions_after(Phase::Closed, later);
    assert(acts == seq![Action::Close] + tail);
    assert forall|i: int| 0 <= i < acts.len() implies acts[i] != Action::Connect && acts[i]
        != Action::Forward by {
        if i > 0 {
            assert(acts[i] == tail[i - 1]);
        }
    }
}

/// After a caller's authorize call its address is a member, and a connection from it is
/// admitted and then forwarded once the destination answers.
pub proof fn lemma_authorized_is_forwarded(s: Set<Seq<char>>, ip: Seq<char>)
    ensures
        ({
            let allowed = after_authorizing(s, seq![ip]).contains(ip);
            let evs = seq![Event::Admission { allowed }, Event::Connected];
            &&& allowed
            &&& phase_after(Phase::Accepted, evs) == Phase::Forwarding
            &&& actions_after(Phase::Accepted, evs) == seq![Action::Connect, Action::Forward]
        }),
{
    assert(seq![ip].drop_last() =~= Seq::<Seq<char>>::empty());
    assert(after_authorizing(s, Seq::<Seq<char>>::empty()) == s);
    assert(after_authorizing(s, seq![ip]) == s.insert(ip));
    let evs = seq![Event::Admission { allowed: true }, Event::Connected];
    let rest = evs.drop_first();
    assert(rest =~= seq![Event::Connected]);
    assert(rest.drop_first() =~= Seq::<Event>::empty());
    lemma_run_first(Phase::Accepted, evs);
    lemma_run_first(Phase::Connecting, rest);
    assert(actions_after(Phase::Forwarding, rest.drop_first()) == Seq::<Action>::empty());
    assert(actions_after(Phase::Accepted, evs) =~= seq![Action::Connect, Action::Forward]);
}

/// When the destination cannot be reached, the admitted connection is closed and nothing is
/// ever forwarded, whatever happens afterwards.
pub proof fn lemma_unreachable_destination_closes(later: Seq<Event>)
    ensures
        ({
            let evs = seq![Event::Admission { allowed: true }, Event::ConnectFailed] + later;
            &&& phase_after(Phase::Accepted, evs) == Phase::Closed
            &&& !actions_after(Phase::Accepted, evs).contains(Action::Forward)
        }),
{
    let evs = seq![Event::Admission { allowed: true }, Event::ConnectFailed] + later;
    let rest = evs.drop_first();
    assert(evs[0] == Event::Admission { allowed: true });
    assert(rest[0] == Event::ConnectFailed);
    assert(rest.drop_first() =~= later);
    lemma_run_first(Phase::Accepted, evs);
    lemma_run_first(Phase::Connecting, rest);
    lemma_closed_is_final(later);
    lemma_actions_len(Phase::Closed, later);
    let acts = actions_after(Phase::Accepted, evs);
    let tail = actions_after(Phase::Closed, later);
    assert(acts =~= seq![Action::Connect, Action::Close] + tail);
    assert forall|i: int| 0 <= i < acts.len() implies acts[i] != Action::Forward by {
        if i > 1 {
            assert(acts[i] == tail[i - 2]);
        }
    }
}

/// Running the events `evs` and then `e` is running `e` from where `evs` left off.
pub proof fn lemma_phase_after_push(p: Phase, evs: Seq<Event>, e: Event)
    ensures
        phase_after(p, evs.push(e)) == transition(phase_after(p, evs), e).0,
    decreases evs.len(),
{
    if evs.len() == 0 {
        assert(evs.push(e).drop_first() =~= Seq::<Event>::empty());
        assert(evs.push(e)[0] == e);
        assert(phase_after(transition(p, e).0, Seq::<Event>::empty()) == transition(p, e).0);
    } else {
        assert(evs.push(e).drop_first() =~= evs.drop_first().push(e));
        assert(evs.push(e)[0] == evs[0]);
        lemma_phase_after_push(transition(p, evs[0]).0, evs.drop_first(), e);
    }
}

/// A session that is forwarding when its deadline elapses is closed, however long it has run
/// and however much traffic it carried: the deadline bounds the whole forwarding step.
pub proof fn lemma_deadline_closes(evs: Seq<Event>)
    requires
        phase_after(Phase::Accepted, evs) == Phase::Forwarding,
    ensures
        phase_after(Phase::Accepted, evs.push(Event::TimedOut)) == Phase::Closed,
{
    lemma_phase_after_push(Phase::Accepted, evs, Event::TimedOut);
}

} // verus!
