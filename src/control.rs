use vstd::prelude::*;
use vstd::string::*;

use crate::allow_set::{texts, AllowSet};

verus! {

/// The text returned to a caller whose address `ip` was just authorized.
pub open spec fn confirmation(ip: Seq<char>) -> Seq<char> {
    "OK: IP "@ + ip + " 已授权"@
}

/// The allow-set that results from authorizing `calls`, one after another, starting from `s`.
pub open spec fn after_authorizing(s: Set<Seq<char>>, calls: Seq<Seq<char>>) -> Set<Seq<char>>
    decreases calls.len(),
{
    if calls.len() == 0 {
        s
    } else {
        after_authorizing(s, calls.drop_last()).insert(calls.last())
    }
}

/// Handles a call of the authorize route from `ip`: adds it to `allowed` and returns the
/// confirmation text naming it.
pub fn authorize(allowed: &mut AllowSet, ip: String) -> (r: String)
    requires
        old(allowed).wf(),
    ensures
        final(allowed).wf(),
        final(allowed)@ == old(allowed)@.insert(ip@),
        r@ == confirmation(ip@),
{
    let mut text = String::from_str("OK: IP ");
    text.append(ip.as_str());
    text.append(" 已授权");
    allowed.insert(ip);
    text
}

/// Handles a call of the list route: every authorized address, each once.
pub fn list(allowed: &AllowSet) -> (r: Vec<String>)
    requires
        allowed.wf(),
    ensures
        texts(r@).to_set() == allowed@,
        texts(r@).no_duplicates(),
{
    allowed.snapshot()
}

/// Authorizing a sequence of callers yields the starting set together with every caller,
/// whatever the order of the calls and however often each one called.
pub proof fn lemma_authorized_set(s: Set<Seq<char>>, calls: Seq<Seq<char>>)
    ensures
        after_authorizing(s, calls) == s.union(calls.to_set()),
    decreases calls.len(),
{
    if calls.len() == 0 {
        assert(calls.to_set() =~= Set::<Seq<char>>::empty());
        assert(s.union(calls.to_set()) =~= s);
    } else {
        let rest = calls.drop_last();
        lemma_authorized_set(s, rest);
        assert(calls =~= rest.push(calls.last()));
        rest.lemma_push_to_set_commute(calls.last());
        assert(after_authorizing(s, calls) =~= s.union(calls.to_set()));
    }
}

/// Two runs of authorize calls by the same callers, in any order and with any repetition,
/// leave the same allow-set.
pub proof fn lemma_authorize_order_independent(
    s: Set<Seq<char>>,
    calls1: Seq<Seq<char>>,
    calls2: Seq<Seq<char>>,
)
    requires
        calls1.to_set() == calls2.to_set(),
    ensures
        after_authorizing(s, calls1) == after_authorizing(s, calls2),
{
    lemma_authorized_set(s, calls1);
    lemma_authorized_set(s, calls2);
}

/// Whatever order a group of distinct callers' authorize calls take effect in, every one of
/// them is a member afterwards, and the set holds exactly as many members as there were callers.
pub proof fn lemma_no_lost_authorizations(calls: Seq<Seq<char>>)
    requires
        calls.no_duplicates(),
    ensures
        forall|i: int|
            0 <= i < calls.len() ==> #[trigger] after_authorizing(
                Set::<Seq<char>>::empty(),
                calls,
            ).contains(calls[i]),
        after_authorizing(Set::<Seq<char>>::empty(), calls).len() == calls.len(),
{
    lemma_authorized_set(Set::<Seq<char>>::empty(), calls);
    assert(Set::<Seq<char>>::empty().union(calls.to_set()) =~= calls.to_set());
    calls.unique_seq_to_set();
    assert forall|i: int| 0 <= i < calls.len() implies #[trigger] after_authorizing(
        Set::<Seq<char>>::empty(),
        calls,
    ).contains(calls[i]) by {
        assert(calls.contains(calls[i]));
    }
}

/// Authorizing the same caller twice leaves an allow-set of the same size as authorizing it once.
pub proof fn lemma_authorize_idempotent(s: Set<Seq<char>>, ip: Seq<char>)
    ensures
        after_authorizing(s, seq![ip, ip]) == after_authorizing(s, seq![ip]),
        after_authorizing(s, seq![ip, ip]).len() == after_authorizing(s, seq![ip]).len(),
{
    assert(seq![ip, ip].drop_last() =~= seq![ip]);
    assert(seq![ip].drop_last() =~= Seq::<Seq<char>>::empty());
    assert(s.insert(ip).insert(ip) =~= s.insert(ip));
    assert(after_authorizing(s, seq![ip, ip]) == after_authorizing(s, seq![ip]));
}

} // verus!
