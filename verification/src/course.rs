//! The course of things over time: sessions that are remembered and forgotten, and
//! connections that are answered, kept and dropped.

use vstd::prelude::*;

use crate::handlers;
use crate::handlers::{HandlerView, StepView};
use crate::http;
use crate::http::{RequestView, ResponseView};
use crate::pages;
use crate::server;
use crate::server::{AfterWrite, ConnectionView, Phase, TurnView, Verdict};
use crate::sessions;
use crate::sessions::Visits;

verus! {

// ------------------------------------------------------------------------ sessions

/// Half an hour, in nanoseconds.
pub open spec fn half_an_hour() -> int {
    1_800_000_000_000
}

/// The session is remembered at the time: it was seen within the last half hour.
pub open spec fn remembered(store: Map<Seq<char>, Visits>, id: Seq<char>, now: u64) -> bool {
    store.dom().contains(id) && now - store[id].seen < half_an_hour()
}

/// A visit counts one up where the session is remembered, and is the first one where
/// it is not, be it new or forgotten. The session was last seen then.
pub proof fn visit_counts_up_or_starts_over(
    before: Map<Seq<char>, Visits>,
    id: Seq<char>,
    now: u64,
    after: Map<Seq<char>, Visits>,
)
    requires
        sessions::visited(before, id, now, after),
        before.dom().contains(id) ==> before[id].count < u64::MAX,
    ensures
        after.dom().contains(id),
        after[id].seen == now,
        remembered(before, id, now) ==> after[id].count == before[id].count + 1,
        !remembered(before, id, now) ==> after[id].count == 1,
{
}

/// A visit of one session changes nothing about another: what is remembered stays as
/// it was, and nothing is made up. Only where there is no room for a new session does
/// another one go, and then none that was seen later than one that stays.
pub proof fn visit_leaves_the_others_alone(
    before: Map<Seq<char>, Visits>,
    id: Seq<char>,
    now: u64,
    after: Map<Seq<char>, Visits>,
    other: Seq<char>,
    stays: Seq<char>,
)
    requires
        sessions::visited(before, id, now, after),
        other != id,
        stays != id,
    ensures
        after.dom().contains(other) ==> remembered(before, other, now) && after[other]
            == before[other],
        remembered(before, other, now) && remembered(before, id, now) ==> after.dom().contains(
            other,
        ),
        before.dom().finite() && before.dom().len() < 4096 && remembered(before, other, now)
            ==> after.dom().contains(other),
        remembered(before, other, now) && !after.dom().contains(other) && after.dom().contains(
            stays,
        ) ==> before[other].seen <= before[stays].seen,
{
    let kept = sessions::fresh_sessions(before, now);
    if before.dom().finite() {
        vstd::set_lib::lemma_len_subset(kept.dom(), before.dom());
    }
}

/// Of a store of at most 4096 sessions a visit makes no larger one.
pub proof fn store_does_not_outgrow_its_bound(
    before: Map<Seq<char>, Visits>,
    id: Seq<char>,
    now: u64,
    after: Map<Seq<char>, Visits>,
)
    requires
        before.dom().finite(),
        before.dom().len() <= 4096,
        sessions::visited(before, id, now, after),
    ensures
        after.dom().finite(),
        after.dom().len() <= 4096,
{
    sessions::store_stays_bounded(before, id, now, after);
}

/// Every visit of the page that shows the session is counted, whatever the method, and
/// the page shows the count; no other request is.
pub proof fn session_page_counts_every_visit(
    before: HandlerView,
    request: RequestView,
    listener: int,
    fresh: Seq<u8>,
    now: u64,
    after: HandlerView,
    step: StepView,
)
    requires
        handlers::handled(before, request, listener, fresh, now, after, step),
    ensures
        ({
            let index = before.server_index(listener, request.host_name()) as int;
            let id = sessions::session_of(request, fresh).0;
            let fits = request.body.len() <= before.servers[index].max_body_size;
            if request.path == "/session"@ && fits {
                &&& sessions::visited(before.sessions, id, now, after.sessions)
                &&& step matches StepView::Done(response) && response.status == 200
                    && response.body == vstd::utf8::encode_utf8(
                    pages::session_text(id, after.sessions[id].count),
                )
            } else {
                after.sessions == before.sessions
            }
        }),
{
    reveal(handlers::handled);
}

// --------------------------------------------------------------------- connections

/// An answer is sent as it is, from its beginning, and nothing of what was received
/// is lost meanwhile.
pub proof fn answer_is_queued_whole(c: ConnectionView, answer: Seq<u8>, keep_alive: bool)
    ensures
        ({
            let d = c.answering(answer, keep_alive);
            &&& d.unsent() == answer
            &&& d.phase == Phase::Writing
            &&& d.keep_alive == keep_alive
            &&& d.received == c.received
            &&& d.listener == c.listener
        }),
{
    assert(c.answering(answer, keep_alive).unsent() =~= answer);
}

/// What is not sent yet is sent next: when some bytes have gone out, the rest is
/// still to be sent, in order. When all have, the connection is closed, or reads the
/// next request where it stays open, with all that was received in the meantime.
pub proof fn answer_is_sent_byte_by_byte(c: ConnectionView, count: int)
    requires
        c.sound(),
        c.phase == Phase::Writing,
        0 <= count <= c.unsent().len(),
    ensures
        ({
            let (next, d) = c.after_sending(count);
            &&& next == if count < c.unsent().len() {
                AfterWrite::More
            } else if c.keep_alive {
                AfterWrite::Next
            } else {
                AfterWrite::Close
            }
            &&& d.received == c.received
            &&& d.listener == c.listener
            &&& next == AfterWrite::More ==> d.phase == Phase::Writing && d.unsent()
                == c.unsent().skip(count)
            &&& next == AfterWrite::Next ==> d.phase == Phase::Reading && d.unsent().len() == 0
        }),
{
    let (next, d) = c.after_sending(count);
    if next == AfterWrite::More {
        assert(d.unsent() =~= c.unsent().skip(count));
    }
}

/// A client that was active within the last fifteen seconds stays. One that was not
/// is told so where it has left a request half sent, once, and is dropped otherwise.
pub proof fn idle_client_is_told_or_dropped(c: ConnectionView, now: u64)
    ensures
        now < c.last_active + 15_000_000_000 ==> c.verdict(now) == Verdict::Keep,
        now >= c.last_active + 15_000_000_000 ==> c.verdict(now) == if c.phase == Phase::Reading
            && c.request_pending && !c.timed_out {
            Verdict::Tell
        } else {
            Verdict::Close
        },
{
}

/// The connection answers with an error of that status, and is closed behind the
/// answer; where the server that the request names has a page for that, the page is
/// looked for first.
pub open spec fn answers_with_error(
    handler: HandlerView,
    c: ConnectionView,
    status: u16,
    d: ConnectionView,
    turn: TurnView,
) -> bool {
    let index = handler.server_index(c.listener, handlers::raw_host_of(c.received)) as int;
    let pages = handler.servers[index].error_pages;
    if pages.dom().contains(status) {
        &&& turn matches TurnView::Perform { job, effect }
        &&& effect == handlers::EffectView::ReadFile(pages[status])
        &&& !job.keep_alive
        &&& d.received == c.received && d.phase == c.phase
    } else {
        &&& turn == TurnView::Send
        &&& d.phase == Phase::Writing && !d.keep_alive
        &&& exists|response: ResponseView, secs: u64|
            response.status == status && !response.suppress_body && d.unsent()
                == #[trigger] response.serialized(false, secs as int)
    }
}

proof fn lemma_answers_with_error(
    handler: HandlerView,
    c: ConnectionView,
    p: ConnectionView,
    status: u16,
    d: ConnectionView,
    turn: TurnView,
)
    requires
        server::took_step(
            p,
            server::error_for(handler, c, status),
            server::blank(),
            false,
            d,
            turn,
        ),
        p.received == c.received,
        p.phase == c.phase,
    ensures
        answers_with_error(handler, c, status, d, turn),
{
    let index = handler.server_index(c.listener, handlers::raw_host_of(c.received)) as int;
    let pages = handler.servers[index].error_pages;
    if !pages.dom().contains(status) {
        let response = server::error_for(handler, c, status)->Done_0;
        let secs = choose|secs: u64|
            d == p.answering(#[trigger] response.serialized(false, secs as int), false);
        answer_is_queued_whole(p, response.serialized(false, secs as int), false);
        assert(d.unsent() == response.serialized(false, secs as int));
    }
}

/// A request that cannot be read is answered with `400`; one whose body is over the
/// limit of its server and over 64 mebibytes is answered with `413` as soon as that
/// is announced. Either way the connection is closed behind the answer, and nothing
/// is remembered.
pub proof fn unreadable_request_is_answered_and_closed(
    before: HandlerView,
    c: ConnectionView,
    fresh: Seq<u8>,
    now: u64,
    after: HandlerView,
    d: ConnectionView,
    turn: TurnView,
)
    requires
        server::processed(before, c, fresh, now, after, d, turn),
        c.phase == Phase::Reading,
        c.received.len() <= 512 * 1024 * 1024,
    ensures
        http::read_request(c.received) is Bad ==> after == before && answers_with_error(
            before,
            c,
            400,
            d,
            turn,
        ),
        http::read_request(c.received) is NeedMoreBody && (http::announced_length(
            c.received,
        ) matches Some(n) && {
            let index = before.server_index(c.listener, handlers::raw_host_of(c.received)) as int;
            n > before.servers[index].max_body_size && n > 64 * 1024 * 1024
        }) ==> after == before && answers_with_error(before, c, 413, d, turn),
{
    let p = ConnectionView { request_pending: c.received.len() > 0, ..c };
    if http::read_request(c.received) is Bad {
        lemma_answers_with_error(before, c, p, 400, d, turn);
    }
    if http::read_request(c.received) is NeedMoreBody && server::cut_off_early(before, c) {
        lemma_answers_with_error(before, c, p, 413, d, turn);
    }
}

/// A client that has sent more than 512 mebibytes without an end is answered with
/// `413` and dropped.
pub proof fn flood_is_answered_and_closed(
    before: HandlerView,
    c: ConnectionView,
    fresh: Seq<u8>,
    now: u64,
    after: HandlerView,
    d: ConnectionView,
    turn: TurnView,
)
    requires
        server::processed(before, c, fresh, now, after, d, turn),
        c.phase == Phase::Reading,
        c.received.len() > 512 * 1024 * 1024,
    ensures
        after == before,
        turn == TurnView::Send,
        d.phase == Phase::Writing && !d.keep_alive,
        exists|response: ResponseView, secs: u64|
            response.status == 413 && d.unsent() == #[trigger] response.serialized(
                false,
                secs as int,
            ),
{
    let p = ConnectionView { request_pending: c.received.len() > 0, ..c };
    let response = server::flooded()->Done_0;
    let secs = choose|secs: u64|
        d == p.answering(#[trigger] response.serialized(false, secs as int), false);
    answer_is_queued_whole(p, response.serialized(false, secs as int), false);
    assert(d.unsent() == response.serialized(false, secs as int));
}

/// A client that is told that its time is up is told so with `408`, and is not told
/// again.
pub proof fn late_client_is_told_once(
    handler: HandlerView,
    c: ConnectionView,
    d: ConnectionView,
    turn: TurnView,
    now: u64,
)
    requires
        server::told(handler, c, d, turn),
    ensures
        answers_with_error(handler, c, 408, d, turn),
        d.timed_out,
        d.verdict(now) != Verdict::Tell,
{
    lemma_answers_with_error(
        handler,
        c,
        ConnectionView { timed_out: true, ..c },
        408,
        d,
        turn,
    );
}

/// While an answer is being sent, nothing is read: what has come in waits.
pub proof fn nothing_is_read_while_answering(
    before: HandlerView,
    c: ConnectionView,
    fresh: Seq<u8>,
    now: u64,
    after: HandlerView,
    d: ConnectionView,
    turn: TurnView,
)
    requires
        server::processed(before, c, fresh, now, after, d, turn),
        c.phase == Phase::Writing,
    ensures
        after == before,
        d == c,
        turn == TurnView::Wait,
{
}

/// A complete request is taken out of what was received, and what follows it stays:
/// no byte is lost and none is read twice.
pub proof fn complete_request_is_used_up(
    before: HandlerView,
    c: ConnectionView,
    fresh: Seq<u8>,
    now: u64,
    after: HandlerView,
    d: ConnectionView,
    turn: TurnView,
)
    requires
        server::processed(before, c, fresh, now, after, d, turn),
        c.phase == Phase::Reading,
        c.received.len() <= 512 * 1024 * 1024,
        http::read_request(c.received) is Complete,
    ensures
        d.received == c.received.skip(http::read_request(c.received)->Complete_used),
        !d.request_pending,
        turn != TurnView::Wait,
        turn == TurnView::Send ==> d.phase == Phase::Writing && d.keep_alive
            == http::read_request(c.received)->Complete_request.keeps_alive(),
        turn matches TurnView::Perform { job, .. } ==> job.request == http::read_request(
            c.received,
        )->Complete_request && job.keep_alive == job.request.keeps_alive(),
{
}

/// A part of a request is waited for: nothing is answered and nothing is lost, unless
/// the body that it announces is over the limit of the server and over 64 mebibytes.
pub proof fn part_of_a_request_is_waited_for(
    before: HandlerView,
    c: ConnectionView,
    fresh: Seq<u8>,
    now: u64,
    after: HandlerView,
    d: ConnectionView,
    turn: TurnView,
)
    requires
        server::processed(before, c, fresh, now, after, d, turn),
        c.phase == Phase::Reading,
        c.received.len() <= 512 * 1024 * 1024,
        http::read_request(c.received) is NeedMoreHeaders || http::read_request(c.received)
            is NeedMoreBody && (http::announced_length(c.received) matches Some(n) ==> {
            let index = before.server_index(c.listener, handlers::raw_host_of(c.received)) as int;
            n <= before.servers[index].max_body_size || n <= 64 * 1024 * 1024
        }),
    ensures
        after == before,
        turn == TurnView::Wait,
        d.received == c.received,
        d.phase == Phase::Reading,
        d.request_pending == (c.received.len() > 0),
{
}

} // verus!
