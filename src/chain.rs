use vstd::prelude::*;

use crate::context::Context;
use crate::message::{Outcome, NOT_FOUND};

verus! {

/// What a middleware decides before the rest of the pipeline runs.
pub enum Flow<S> {
    /// Run the rest of the pipeline with this context (the one received, or
    /// one derived from it with new state).
    Next(Context<S>),
    /// Answer with this outcome: nothing registered after this middleware
    /// runs.
    Respond(Outcome),
}

/// The function that answers a matched route.
pub trait Handler<S> {
    /// `out` is an outcome that this handler may give for `ctx`. An impl
    /// that is not verified keeps this default, which claims nothing.
    closed spec fn answers(&self, ctx: Context<S>, out: Outcome) -> bool {
        true
    }

    fn call(&self, ctx: Context<S>) -> (out: Outcome)
        ensures
            self.answers(ctx, out),
    ;
}

/// A function wrapped around every dispatch: `before` runs on the way in and
/// decides whether the rest of the pipeline runs; `after` runs on the way out
/// on what the rest returned.
pub trait Middleware<S> {
    /// `flow` is a decision that this middleware may take for `ctx`. An impl
    /// that is not verified keeps this default, which claims nothing.
    closed spec fn decides(&self, ctx: Context<S>, flow: Flow<S>) -> bool {
        true
    }

    /// `out` is what this middleware may make of the inner outcome `inner`.
    /// An impl that is not verified keeps this default, which claims nothing.
    closed spec fn finishes(&self, inner: Outcome, out: Outcome) -> bool {
        true
    }

    fn before(&self, ctx: Context<S>) -> (flow: Flow<S>)
        ensures
            self.decides(ctx, flow),
    ;

    fn after(&self, result: Outcome) -> (out: Outcome)
        ensures
            self.finishes(result, out),
    ;
}

/// One call that a dispatch makes. Middleware is numbered in the order in
/// which it was added.
#[derive(PartialEq, Eq, Structural, Clone, Copy, Debug)]
pub enum Event {
    /// `before` of the middleware with this number.
    Before(usize),
    /// The matched handler.
    Handler,
    /// The not-found responder.
    NotFound,
    /// `after` of the middleware with this number.
    After(usize),
}

/// The innermost call of a dispatch: the handler where a route matched, else
/// the not-found responder.
pub open spec fn terminal_event(matched: bool) -> Event {
    if matched {
        Event::Handler
    } else {
        Event::NotFound
    }
}

/// The outcome of the not-found responder: status 404, body `404`.
pub open spec fn is_not_found(out: Outcome) -> bool {
    out matches Ok(r) && r.status == NOT_FOUND && r.body@ == "404"@
}

/// `out` is an outcome, and `trace` the calls made, of running the pipeline
/// from position `i` on `ctx`: the middleware `mws[i]` decides on `ctx`; where
/// it answers, its answer is the outcome; where it passes a context inward, the
/// rest of the pipeline runs on that context and `mws[i]` finishes what comes
/// back. Past the last middleware, `terminal` answers (the not-found responder
/// where it is `None`).
pub open spec fn piped<S, H: Handler<S>, M: Middleware<S>>(
    mws: Seq<M>,
    i: nat,
    ctx: Context<S>,
    terminal: Option<H>,
    out: Outcome,
    trace: Seq<Event>,
) -> bool
    decreases mws.len() - i,
{
    if i >= mws.len() {
        match terminal {
            Some(h) => h.answers(ctx, out) && trace == seq![Event::Handler],
            None => is_not_found(out) && trace == seq![Event::NotFound],
        }
    } else {
        ||| exists|o: Outcome|
            #[trigger] mws[i as int].decides(ctx, Flow::<S>::Respond(o)) && out == o && trace
                == seq![Event::Before(i as usize)]
        ||| exists|c: Context<S>, inner: Outcome|
            #[trigger] mws[i as int].decides(ctx, Flow::<S>::Next(c)) && #[trigger] mws[i as int].finishes(
                inner,
                out,
            ) && trace.len() >= 2 && trace[0] == Event::Before(i as usize) && trace.last()
                == Event::After(i as usize) && piped(
                mws,
                i + 1,
                c,
                terminal,
                inner,
                trace.subrange(1, trace.len() - 1),
            )
    }
}

pub proof fn lemma_piped_respond<S, H: Handler<S>, M: Middleware<S>>(
    mws: Seq<M>,
    i: nat,
    ctx: Context<S>,
    terminal: Option<H>,
    flow: Flow<S>,
    out: Outcome,
)
    requires
        i < mws.len(),
        mws[i as int].decides(ctx, flow),
        flow == Flow::<S>::Respond(out),
    ensures
        piped(mws, i, ctx, terminal, out, seq![Event::Before(i as usize)]),
{
}

pub proof fn lemma_piped_next<S, H: Handler<S>, M: Middleware<S>>(
    mws: Seq<M>,
    i: nat,
    ctx: Context<S>,
    terminal: Option<H>,
    next: Context<S>,
    inner: Outcome,
    t: Seq<Event>,
    out: Outcome,
)
    requires
        i < mws.len(),
        mws[i as int].decides(ctx, Flow::<S>::Next(next)),
        piped(mws, i + 1, next, terminal, inner, t),
        mws[i as int].finishes(inner, out),
    ensures
        piped(
            mws,
            i,
            ctx,
            terminal,
            out,
            seq![Event::Before(i as usize)] + t + seq![Event::After(i as usize)],
        ),
{
    let trace = seq![Event::Before(i as usize)] + t + seq![Event::After(i as usize)];
    assert(trace.subrange(1, trace.len() - 1) =~= t);
}

/// With no middleware, the pipeline's outcome is the terminal's: the handler's
/// answer on the very context given, or the not-found outcome.
pub proof fn lemma_piped_no_middleware<S, H: Handler<S>, M: Middleware<S>>(
    mws: Seq<M>,
    ctx: Context<S>,
    terminal: Option<H>,
    out: Outcome,
    trace: Seq<Event>,
)
    requires
        mws.len() == 0,
    ensures
        piped(mws, 0, ctx, terminal, out, trace) <==> match terminal {
            Some(h) => h.answers(ctx, out) && trace == seq![Event::Handler],
            None => is_not_found(out) && trace == seq![Event::NotFound],
        },
{
}

/// Where the calls stop at the `before` of the middleware at position `i`,
/// that middleware answered, its answer is the outcome, and nothing after it
/// (the terminal included) ran.
pub proof fn lemma_piped_answered<S, H: Handler<S>, M: Middleware<S>>(
    mws: Seq<M>,
    i: nat,
    ctx: Context<S>,
    terminal: Option<H>,
    out: Outcome,
)
    requires
        i < mws.len(),
        piped(mws, i, ctx, terminal, out, seq![Event::Before(i as usize)]),
    ensures
        mws[i as int].decides(ctx, Flow::<S>::Respond(out)),
{
}

/// Where the middleware at position `i` passed a context inward, the rest of
/// the pipeline ran on that context and this middleware finished what came
/// back.
pub proof fn lemma_piped_passed<S, H: Handler<S>, M: Middleware<S>>(
    mws: Seq<M>,
    i: nat,
    ctx: Context<S>,
    terminal: Option<H>,
    out: Outcome,
    trace: Seq<Event>,
)
    requires
        i < mws.len(),
        piped(mws, i, ctx, terminal, out, trace),
        trace.len() > 1,
    ensures
        exists|c: Context<S>, inner: Outcome|
            #[trigger] mws[i as int].decides(ctx, Flow::<S>::Next(c)) && #[trigger] mws[i as int].finishes(
                inner,
                out,
            ) && piped(mws, i + 1, c, terminal, inner, trace.subrange(1, trace.len() - 1)),
{
}

/// The calls that a pipeline of `n` middleware makes from position `i` inward,
/// when the middleware at position `k` answers without running the rest
/// (`k == n`: none does, and `terminal` runs). Each middleware's `before` comes
/// before everything added after it, and its `after` after all of that.
pub open spec fn onion(i: nat, k: nat, n: nat, terminal: Event) -> Seq<Event>
    decreases n - i,
{
    if i >= n {
        seq![terminal]
    } else if i == k {
        seq![Event::Before(i as usize)]
    } else {
        seq![Event::Before(i as usize)] + onion(i + 1, k, n, terminal) + seq![Event::After(i as usize)]
    }
}

/// Where no middleware answers early, the calls run: every `before` in the
/// order the middleware was added, then the innermost call, then every `after`
/// in the reverse order.
pub proof fn lemma_onion_full(i: nat, n: nat, terminal: Event)
    requires
        i <= n <= usize::MAX,
    ensures
        onion(i, n, n, terminal).len() == 2 * (n - i) + 1,
        forall|p: int| 0 <= p < n - i ==> #[trigger] onion(i, n, n, terminal)[p] == Event::Before(
            (i + p) as usize,
        ),
        onion(i, n, n, terminal)[n - i] == terminal,
        forall|p: int|
            0 <= p < n - i ==> #[trigger] onion(i, n, n, terminal)[n - i + 1 + p] == Event::After(
                (n - 1 - p) as usize,
            ),
    decreases n - i,
{
    if i < n {
        lemma_onion_full(i + 1, n, terminal);
        let inner = onion(i + 1, n, n, terminal);
        let o = onion(i, n, n, terminal);
        assert(o == seq![Event::Before(i as usize)] + inner + seq![Event::After(i as usize)]);
        assert forall|p: int| 0 <= p < n - i implies #[trigger] o[p] == Event::Before(
            (i + p) as usize,
        ) by {
            if p > 0 {
                assert(o[p] == inner[p - 1]);
            }
        }
        assert(o[n - i] == inner[n - i - 1]);
        assert forall|p: int| 0 <= p < n - i implies #[trigger] o[n - i + 1 + p] == Event::After(
            (n - 1 - p) as usize,
        ) by {
            if p < n - i - 1 {
                assert(o[n - i + 1 + p] == inner[n - i + p]);
                assert(inner[(n - (i + 1)) + 1 + p] == Event::After((n - 1 - p) as usize));
            }
        }
    }
}

/// Where the middleware at position `k` answers without running the rest,
/// nothing added after it runs and the innermost call never happens: the calls
/// are the `before` of each middleware up to `k`, then the `after` of those
/// before `k`.
pub proof fn lemma_onion_short(i: nat, k: nat, n: nat, terminal: Event)
    requires
        i <= k < n <= usize::MAX,
        terminal is Handler || terminal is NotFound,
    ensures
        onion(i, k, n, terminal).contains(Event::Before(k as usize)),
        forall|x: int|
            0 <= x < onion(i, k, n, terminal).len() ==> {
                let e = #[trigger] onion(i, k, n, terminal)[x];
                &&& e != terminal
                &&& e is Before ==> i <= e->Before_0 <= k
                &&& e is After ==> i <= e->After_0 < k
            },
    decreases k - i,
{
    let o = onion(i, k, n, terminal);
    if i == k {
        assert(o[0] == Event::Before(k as usize));
    } else {
        lemma_onion_short(i + 1, k, n, terminal);
        let inner = onion(i + 1, k, n, terminal);
        assert(o == seq![Event::Before(i as usize)] + inner + seq![Event::After(i as usize)]);
        let w = choose|x: int| 0 <= x < inner.len() && inner[x] == Event::Before(k as usize);
        assert(o[w + 1] == Event::Before(k as usize));
        assert forall|x: int| 0 <= x < o.len() implies {
            let e = #[trigger] o[x];
            &&& e != terminal
            &&& e is Before ==> i <= e->Before_0 <= k
            &&& e is After ==> i <= e->After_0 < k
        } by {
            if 0 < x < o.len() - 1 {
                assert(o[x] == inner[x - 1]);
            }
        }
    }
}

} // verus!
