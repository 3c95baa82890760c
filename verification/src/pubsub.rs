//! Pub/sub: the registry of subscribers and the delivery of published payloads.
use tokio::sync::mpsc::UnboundedSender;
use vstd::prelude::*;

use crate::bytemap::{
    bound, distinct_keys, has_key, law_bound, law_unbound, lemma_mapped, lemma_rebound, mapped,
    unbound, value_of, ByteMap,
};
use crate::bytes::to_vec;
use crate::protocol::{bulk_reply, reply_bulk};

verus! {

/// The sending half of a tokio channel without a bound.
#[verifier::external_type_specification]
#[verifier::external_body]
#[verifier::reject_recursive_types(T)]
pub struct ExUnboundedSender<T>(tokio::sync::mpsc::UnboundedSender<T>);

/// The payloads that a subscriber's channel has accepted through this handle, oldest
/// first.
pub uninterp spec fn delivered(tx: UnboundedSender<Vec<u8>>) -> Seq<Seq<u8>>;

/// `tokio::sync::mpsc::UnboundedSender::send`: hands a payload to a subscriber
/// without waiting. It succeeds if the receiving half is still open, and the
/// payload is then queued behind all earlier ones; otherwise nothing is queued.
/// Whether the receiver is open depends on the subscriber's task.
#[verifier::external_body]
pub(crate) fn send(tx: &mut UnboundedSender<Vec<u8>>, payload: Vec<u8>) -> (r: bool)
    ensures
        r ==> delivered(*final(tx)) == delivered(*old(tx)).push(payload@),
        !r ==> delivered(*final(tx)) == delivered(*old(tx)),
{
    tx.send(payload).is_ok()
}

/// Whether a subscriber's channel can answer `r` when it is offered `payload` on a handle through
/// which it has accepted `inbox`.
pub closed spec fn subscriber_answers(inbox: Seq<Seq<u8>>, payload: Seq<u8>, r: bool) -> bool {
    exists|tx: &mut UnboundedSender<Vec<u8>>, p: Vec<u8>|
        delivered(*tx) == inbox && p@ == payload && #[trigger] call_ensures(send, (tx, p), r)
}

/// A subscriber's answer is that of its channel, and nothing else: a payload is offered to it
/// as it is, and it takes the payload or does not.
pub(crate) proof fn law_subscriber_answers(inbox: Seq<Seq<u8>>, payload: Seq<u8>, r: bool)
    ensures
        subscriber_answers(inbox, payload, r) <==> exists|
            tx: &mut UnboundedSender<Vec<u8>>,
            p: Vec<u8>,
        |
            delivered(*tx) == inbox && p@ == payload && #[trigger] call_ensures(send, (tx, p), r),
{
}

/// Calls a function on a handle and a payload.
fn called_with<F: Fn(&mut UnboundedSender<Vec<u8>>, Vec<u8>) -> bool>(
    f: F,
    tx: &mut UnboundedSender<Vec<u8>>,
    payload: Vec<u8>,
) -> (r: bool)
    requires
        forall|x: &mut UnboundedSender<Vec<u8>>| #[trigger] call_requires(f, (x, payload)),
    ensures
        exists|x: &mut UnboundedSender<Vec<u8>>|
            *x == *old(tx) && *final(x) == *final(tx) && #[trigger] call_ensures(
                f,
                (x, payload),
                r,
            ),
{
    f(tx, payload)
}

/// Offers a payload to a subscriber. Returns whether its channel took it.
fn offer(tx: &mut UnboundedSender<Vec<u8>>, payload: Vec<u8>) -> (r: bool)
    ensures
        r ==> delivered(*final(tx)) == delivered(*old(tx)).push(payload@),
        !r ==> delivered(*final(tx)) == delivered(*old(tx)),
        subscriber_answers(delivered(*old(tx)), payload@, r),
{
    called_with(send, tx, payload)
}

/// Registry of pub/sub subscribers: channel -> list of delivery senders.
pub type SubMap = ByteMap<Vec<UnboundedSender<Vec<u8>>>>;

/// Channels, each with what every one of its subscribers has been handed.
pub type SubsView = Seq<(Seq<u8>, Seq<Seq<Seq<u8>>>)>;

/// What each subscriber has been handed.
pub open spec fn inboxes(list: Seq<UnboundedSender<Vec<u8>>>) -> Seq<Seq<Seq<u8>>> {
    list.map_values(|tx: UnboundedSender<Vec<u8>>| delivered(tx))
}

/// What a registry holds.
pub open spec fn subs_view(s: Seq<(Seq<u8>, Vec<UnboundedSender<Vec<u8>>>)>) -> SubsView {
    mapped(s, |list: Vec<UnboundedSender<Vec<u8>>>| inboxes(list@))
}

/// The members of `list` whose mark is `mark`, in order.
pub open spec fn marked<T>(list: Seq<T>, marks: Seq<bool>, mark: bool) -> Seq<T>
    decreases list.len(),
{
    if list.len() == 0 {
        seq![]
    } else {
        let n = list.len() - 1;
        let earlier = marked(list.drop_last(), marks, mark);
        if marks[n] == mark {
            earlier.push(list[n])
        } else {
            earlier
        }
    }
}

/// The subscribers after a payload is sent to each: those that took it have it behind what
/// they were handed before, and those that did not are struck off.
pub open spec fn handed_out(
    list: Seq<Seq<Seq<u8>>>,
    payload: Seq<u8>,
    taken: Seq<bool>,
) -> Seq<Seq<Seq<u8>>> {
    marked(list, taken, true).map_values(|inbox: Seq<Seq<u8>>| inbox.push(payload))
}

/// The registry after a payload is published: a channel without subscribers goes.
pub open spec fn published(
    subs: SubsView,
    channel: Seq<u8>,
    payload: Seq<u8>,
    taken: Seq<bool>,
) -> SubsView {
    match value_of(subs, channel) {
        Some(list) => {
            let left = handed_out(list, payload, taken);
            if left.len() == 0 {
                unbound(subs, channel)
            } else {
                bound(subs, channel, left)
            }
        },
        None => subs,
    }
}

/// The registry after a subscriber joins a channel.
pub open spec fn subscribed(subs: SubsView, channel: Seq<u8>, inbox: Seq<Seq<u8>>) -> SubsView {
    bound(
        subs,
        channel,
        match value_of(subs, channel) {
            Some(list) => list.push(inbox),
            None => seq![inbox],
        },
    )
}

/// The subscribers of a channel.
pub open spec fn subscribers_of(subs: SubsView, channel: Seq<u8>) -> Seq<Seq<Seq<u8>>> {
    match value_of(subs, channel) {
        Some(list) => list,
        None => seq![],
    }
}

/// Whether answers to a payload are those of a channel's subscribers, each of which is asked.
pub open spec fn subscribers_say(
    subs: SubsView,
    channel: Seq<u8>,
    payload: Seq<u8>,
    taken: Seq<bool>,
) -> bool {
    all_say(subscribers_of(subs, channel), payload, taken)
}

/// Whether answers to a payload are those of subscribers.
pub open spec fn all_say(list: Seq<Seq<Seq<u8>>>, payload: Seq<u8>, taken: Seq<bool>) -> bool {
    forall|i: int|
        0 <= i < list.len() ==> subscriber_answers(list[i], payload, #[trigger] taken[i])
}

/// Sends `payload` to every subscriber in `list`. Returns which of them took it.
fn send_all(list: &mut Vec<UnboundedSender<Vec<u8>>>, payload: &[u8]) -> (taken: Vec<bool>)
    ensures
        taken@.len() == old(list)@.len(),
        final(list)@.len() == old(list)@.len(),
        forall|i: int|
            0 <= i < old(list)@.len() ==> #[trigger] delivered(final(list)@[i]) == (if taken@[i] {
                delivered(old(list)@[i]).push(payload@)
            } else {
                delivered(old(list)@[i])
            }),
        all_say(inboxes(old(list)@), payload@, taken@),
{
    let ghost start = list@;
    let mut taken: Vec<bool> = Vec::new();
    let mut i: usize = 0;
    while i < list.len()
        invariant
            i <= list@.len(),
            list@.len() == start.len(),
            taken@.len() == i,
            forall|j: int|
                0 <= j < i ==> #[trigger] delivered(list@[j]) == (if taken@[j] {
                    delivered(start[j]).push(payload@)
                } else {
                    delivered(start[j])
                }),
            forall|j: int| i <= j < start.len() ==> #[trigger] list@[j] == start[j],
            forall|j: int|
                0 <= j < i ==> subscriber_answers(
                    delivered(start[j]),
                    payload@,
                    #[trigger] taken@[j],
                ),
        decreases list@.len() - i,
    {
        let ghost before = list@;
        assert(before[i as int] == start[i as int]);
        let sent: bool = offer(&mut list[i], to_vec(payload));
        taken.push(sent);
        assert forall|j: int| 0 <= j < start.len() && j != i implies #[trigger] list@[j]
            == before[j] by {}
        i += 1;
    }
    taken
}

/// Strikes off the subscribers that did not take a payload, and hands them back.
pub fn strike_off(list: &mut Vec<UnboundedSender<Vec<u8>>>, taken: &Vec<bool>) -> (gone: Vec<
    UnboundedSender<Vec<u8>>,
>)
    requires
        taken@.len() == old(list)@.len(),
    ensures
        final(list)@ == marked(old(list)@, taken@, true),
        gone@ == marked(old(list)@, taken@, false),
{
    let ghost all = list@;
    let mut gone: Vec<UnboundedSender<Vec<u8>>> = Vec::new();
    let mut at: usize = 0;
    let mut i: usize = 0;
    assert(all.take(0) =~= seq![]);
    assert(list@ =~= marked(all.take(0), taken@, true) + all.skip(0));
    while i < taken.len()
        invariant
            i <= taken@.len(),
            taken@.len() == all.len(),
            at <= i,
            at == marked(all.take(i as int), taken@, true).len(),
            list@ == marked(all.take(i as int), taken@, true) + all.skip(i as int),
            gone@ == marked(all.take(i as int), taken@, false),
        decreases taken@.len() - i,
    {
        let ghost n = i as int;
        let ghost kept = marked(all.take(n), taken@, true);
        proof {
            assert(all.take(n + 1).drop_last() =~= all.take(n));
            assert(list@[at as int] == all[n]);
        }
        if taken[i] {
            at += 1;
            assert(list@ =~= kept.push(all[n]) + all.skip(n + 1));
        } else {
            let tx: UnboundedSender<Vec<u8>> = list.remove(at);
            gone.push(tx);
            assert(list@ =~= kept + all.skip(n + 1));
        }
        i += 1;
    }
    assert(all.take(i as int) =~= all);
    assert(list@ =~= marked(all, taken@, true));
    gone
}

/// What became of a published payload.
pub struct Delivery {
    /// Which subscribers of the channel took it.
    pub taken: Vec<bool>,
    /// The subscribers that did not, and were struck off.
    pub gone: Vec<UnboundedSender<Vec<u8>>>,
}

/// Marks pick the same members of what each subscriber has been handed.
proof fn lemma_marked_inboxes(
    list: Seq<UnboundedSender<Vec<u8>>>,
    sent: Seq<UnboundedSender<Vec<u8>>>,
    payload: Seq<u8>,
    taken: Seq<bool>,
)
    requires
        list.len() == sent.len(),
        forall|i: int|
            0 <= i < list.len() ==> #[trigger] delivered(sent[i]) == (if taken[i] {
                delivered(list[i]).push(payload)
            } else {
                delivered(list[i])
            }),
    ensures
        inboxes(marked(sent, taken, true)) == handed_out(inboxes(list), payload, taken),
        inboxes(marked(sent, taken, false)) == marked(inboxes(list), taken, false),
    decreases list.len(),
{
    if list.len() > 0 {
        let n = list.len() - 1;
        let l = list.drop_last();
        let t = sent.drop_last();
        assert(inboxes(list).drop_last() =~= inboxes(l));
        assert forall|i: int| 0 <= i < l.len() implies #[trigger] delivered(t[i]) == (if taken[i] {
            delivered(l[i]).push(payload)
        } else {
            delivered(l[i])
        }) by {
            assert(t[i] == sent[i]);
        }
        lemma_marked_inboxes(l, t, payload, taken);
        let last = delivered(sent[n]);
        if taken[n] {
            assert(last == delivered(list[n]).push(payload));
            assert(inboxes(marked(sent, taken, true)) =~= inboxes(marked(t, taken, true)).push(
                last,
            ));
            assert(handed_out(inboxes(list), payload, taken) =~= handed_out(
                inboxes(l),
                payload,
                taken,
            ).push(last));
        } else {
            assert(last == delivered(list[n]));
            assert(inboxes(marked(sent, taken, false)) =~= inboxes(marked(t, taken, false)).push(
                last,
            ));
        }
    } else {
        assert(inboxes(marked(sent, taken, true)) =~= handed_out(inboxes(list), payload, taken));
        assert(inboxes(marked(sent, taken, false)) =~= marked(inboxes(list), taken, false));
    }
}

/// Sends `payload` to every subscriber in `list` and strikes off those that are gone.
fn hand_out(list: &mut Vec<UnboundedSender<Vec<u8>>>, payload: &[u8]) -> (r: Delivery)
    ensures
        r.taken@.len() == old(list)@.len(),
        inboxes(final(list)@) == handed_out(inboxes(old(list)@), payload@, r.taken@),
        inboxes(r.gone@) == marked(inboxes(old(list)@), r.taken@, false),
        all_say(inboxes(old(list)@), payload@, r.taken@),
{
    let ghost start = list@;
    let taken: Vec<bool> = send_all(list, payload);
    proof {
        lemma_marked_inboxes(start, list@, payload@, taken@);
    }
    let gone: Vec<UnboundedSender<Vec<u8>>> = strike_off(list, &taken);
    Delivery { taken, gone }
}

/// PUBLISH: fans `payload` out to the subscribers of `channel`. A subscriber that is
/// gone is struck off, and so is a channel without subscribers. What is handed back says
/// which subscribers took the payload; those that did not come with it, as they were.
pub fn publish(subs: &mut SubMap, channel: &[u8], payload: &[u8]) -> (r: Delivery)
    requires
        old(subs).wf(),
    ensures
        final(subs).wf(),
        r.taken@.len() == subscribers_of(subs_view(old(subs)@), channel@).len(),
        subs_view(final(subs)@) == published(
            subs_view(old(subs)@),
            channel@,
            payload@,
            r.taken@,
        ),
        inboxes(r.gone@) == marked(
            subscribers_of(subs_view(old(subs)@), channel@),
            r.taken@,
            false,
        ),
        subscribers_say(subs_view(old(subs)@), channel@, payload@, r.taken@),
{
    let ghost f = |list: Vec<UnboundedSender<Vec<u8>>>| inboxes(list@);
    let ghost s = subs@;
    proof {
        subs.lemma_wf();
    }
    if !subs.contains_key(channel) {
        proof {
            lemma_mapped(s, channel@, arbitrary(), f);
        }
        let r = Delivery { taken: Vec::new(), gone: Vec::new() };
        assert(inboxes(r.gone@) =~= seq![]);
        return r;
    }
    let nobody: Vec<UnboundedSender<Vec<u8>>> = Vec::new();
    let mut list: Vec<UnboundedSender<Vec<u8>>> = match subs.insert(to_vec(channel), nobody) {
        Some(list) => list,
        None => Vec::new(),
    };
    let r: Delivery = hand_out(&mut list, payload);
    let ghost left = list;
    proof {
        lemma_rebound(s, channel@, nobody, left);
        lemma_mapped(s, channel@, left, f);
    }
    if list.len() == 0 {
        let _ = subs.remove(channel);
    } else {
        let _ = subs.insert(to_vec(channel), list);
    }
    r
}

/// SUBSCRIBE: adds a subscriber to `channel`.
pub fn subscribe(subs: &mut SubMap, channel: &[u8], tx: UnboundedSender<Vec<u8>>)
    requires
        old(subs).wf(),
    ensures
        final(subs).wf(),
        subs_view(final(subs)@) == subscribed(subs_view(old(subs)@), channel@, delivered(tx)),
{
    let ghost f = |list: Vec<UnboundedSender<Vec<u8>>>| inboxes(list@);
    let ghost s = subs@;
    proof {
        subs.lemma_wf();
    }
    let nobody: Vec<UnboundedSender<Vec<u8>>> = Vec::new();
    let mut list: Vec<UnboundedSender<Vec<u8>>> = match subs.insert(to_vec(channel), nobody) {
        Some(list) => list,
        None => Vec::new(),
    };
    let ghost was = list;
    list.push(tx);
    let ghost joined = list;
    let _ = subs.insert(to_vec(channel), list);
    proof {
        lemma_rebound(s, channel@, nobody, joined);
        lemma_mapped(s, channel@, joined, f);
        assert(inboxes(joined@) =~= inboxes(was@).push(delivered(tx)));
        if !has_key(s, channel@) {
            assert(inboxes(joined@) =~= seq![delivered(tx)]);
        }
    }
}

/// The frame in which a published payload reaches a subscriber:
/// `[0x00] | [Payload Length: 4 bytes, big-endian] | [Payload Data]`.
pub fn delivery_frame(payload: &[u8]) -> (f: Vec<u8>)
    ensures
        f@ == bulk_reply(payload@),
{
    let mut f: Vec<u8> = Vec::new();
    reply_bulk(&mut f, payload);
    assert(f@ =~= bulk_reply(payload@));
    f
}

/// While all subscribers of a channel are there, each gets the payload behind what it got
/// before, and no other channel is touched.
pub proof fn law_published_reaches_all(
    subs: SubsView,
    channel: Seq<u8>,
    payload: Seq<u8>,
    taken: Seq<bool>,
    other: Seq<u8>,
)
    requires
        distinct_keys(subs),
        value_of(subs, channel) matches Some(list) && list.len() > 0 && forall|i: int|
            0 <= i < list.len() ==> #[trigger] taken[i],
    ensures
        value_of(published(subs, channel, payload, taken), channel) == Some(
            (value_of(subs, channel)->0).map_values(|inbox: Seq<Seq<u8>>| inbox.push(payload)),
        ),
        other != channel ==> value_of(published(subs, channel, payload, taken), other) == value_of(
            subs,
            other,
        ),
{
    let list = value_of(subs, channel)->0;
    lemma_all_marked(list, taken, true);
    law_bound(subs, channel, handed_out(list, payload, taken));
}

/// Where all marks are the same, all or none are picked.
proof fn lemma_all_marked<T>(list: Seq<T>, marks: Seq<bool>, mark: bool)
    requires
        forall|i: int| 0 <= i < list.len() ==> #[trigger] marks[i] == mark,
    ensures
        marked(list, marks, mark) == list,
        marked(list, marks, !mark).len() == 0,
    decreases list.len(),
{
    if list.len() > 0 {
        lemma_all_marked(list.drop_last(), marks, mark);
        assert(marks[list.len() - 1] == mark);
        assert(marked(list, marks, mark) =~= list);
    } else {
        assert(marked(list, marks, mark) =~= list);
    }
}

/// A subscriber that takes a payload has it behind what it got before, and stays
/// subscribed, whatever becomes of the others.
pub proof fn law_live_subscriber_stays(
    subs: SubsView,
    channel: Seq<u8>,
    payload: Seq<u8>,
    taken: Seq<bool>,
    i: int,
)
    requires
        distinct_keys(subs),
        0 <= i < subscribers_of(subs, channel).len(),
        taken[i],
    ensures
        subscribers_of(published(subs, channel, payload, taken), channel).contains(
            subscribers_of(subs, channel)[i].push(payload),
        ),
{
    let list = subscribers_of(subs, channel);
    let j = lemma_marked_at(list, taken, i);
    let left = handed_out(list, payload, taken);
    assert(left[j] == list[i].push(payload));
    law_bound(subs, channel, left);
}

/// Where a picked member ends up.
proof fn lemma_marked_at<T>(list: Seq<T>, marks: Seq<bool>, i: int) -> (j: int)
    requires
        0 <= i < list.len(),
        marks[i],
    ensures
        0 <= j < marked(list, marks, true).len(),
        marked(list, marks, true)[j] == list[i],
    decreases list.len(),
{
    let n = list.len() - 1;
    if i == n {
        marked(list, marks, true).len() - 1
    } else {
        lemma_marked_at(list.drop_last(), marks, i)
    }
}

/// A channel whose subscribers are all gone is forgotten.
pub proof fn law_deserted_channel_goes(
    subs: SubsView,
    channel: Seq<u8>,
    payload: Seq<u8>,
    taken: Seq<bool>,
)
    requires
        distinct_keys(subs),
        value_of(subs, channel) matches Some(list) && forall|i: int|
            0 <= i < list.len() ==> !(#[trigger] taken[i]),
    ensures
        !has_key(published(subs, channel, payload, taken), channel),
{
    lemma_all_marked(value_of(subs, channel)->0, taken, false);
    law_unbound(subs, channel);
}

/// A subscriber that joins a channel is the last of its subscribers, behind all who were there;
/// no other channel changes.
pub proof fn law_subscriber_joins(
    subs: SubsView,
    channel: Seq<u8>,
    inbox: Seq<Seq<u8>>,
    other: Seq<u8>,
)
    requires
        distinct_keys(subs),
    ensures
        subscribers_of(subscribed(subs, channel, inbox), channel) == subscribers_of(
            subs,
            channel,
        ) + seq![inbox],
        other != channel ==> subscribers_of(subscribed(subs, channel, inbox), other)
            == subscribers_of(subs, other),
{
    let list = match value_of(subs, channel) {
        Some(list) => list.push(inbox),
        None => seq![inbox],
    };
    law_bound(subs, channel, list);
    assert(list =~= subscribers_of(subs, channel) + seq![inbox]);
}

/// Where what is picked comes from.
proof fn lemma_marked_from<T>(list: Seq<T>, marks: Seq<bool>, mark: bool, j: int) -> (i: int)
    requires
        0 <= j < marked(list, marks, mark).len(),
    ensures
        0 <= i < list.len(),
        marks[i] == mark,
        marked(list, marks, mark)[j] == list[i],
        marked(list, marks, mark).len() <= list.len(),
    decreases list.len(),
{
    let n = list.len() - 1;
    let earlier = marked(list.drop_last(), marks, mark);
    lemma_marked_len(list.drop_last(), marks);
    if j < earlier.len() {
        let i = lemma_marked_from(list.drop_last(), marks, mark, j);
        i
    } else {
        n
    }
}

/// Each member is picked by one mark or the other.
proof fn lemma_marked_len<T>(list: Seq<T>, marks: Seq<bool>)
    ensures
        marked(list, marks, true).len() + marked(list, marks, false).len() == list.len(),
    decreases list.len(),
{
    if list.len() > 0 {
        lemma_marked_len(list.drop_last(), marks);
    }
}

/// Whoever is still subscribed after a payload was published took it: it is the last thing that
/// was handed over, behind what the subscriber had before. All others are struck off, and no
/// other channel changes, whoever is gone. Nothing happens on a channel without subscribers.
pub proof fn law_only_takers_stay(
    subs: SubsView,
    channel: Seq<u8>,
    payload: Seq<u8>,
    taken: Seq<bool>,
    j: int,
    other: Seq<u8>,
)
    requires
        distinct_keys(subs),
    ensures
        ({
            let list = subscribers_of(subs, channel);
            let left = subscribers_of(published(subs, channel, payload, taken), channel);
            &&& left.len() + marked(list, taken, false).len() == list.len()
            &&& 0 <= j < left.len() ==> exists|i: int|
                0 <= i < list.len() && taken[i] && left[j] == (#[trigger] list[i]).push(payload)
            &&& other != channel ==> subscribers_of(
                published(subs, channel, payload, taken),
                other,
            ) == subscribers_of(subs, other)
            &&& value_of(subs, channel) is None ==> published(subs, channel, payload, taken) == subs
        }),
{
    let list = subscribers_of(subs, channel);
    let left = handed_out(list, payload, taken);
    lemma_marked_len(list, taken);
    law_bound(subs, channel, left);
    law_unbound(subs, channel);
    let now = subscribers_of(published(subs, channel, payload, taken), channel);
    assert(value_of(subs, channel) is Some ==> now =~= left);
    if 0 <= j < now.len() {
        let i = lemma_marked_from(list, taken, true, j);
        assert(now[j] == list[i].push(payload));
    }
}

} // verus!
