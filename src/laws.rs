//! Properties of running commands, proved of the interpreter's semantics
//! (`execute`), which every backend meets through `Runtime::run_command`.
use vstd::prelude::*;

use crate::storage::{admits, empty_queue, queue_of, Queues};
use crate::errors::ErrorView;
use crate::types::{CommandView, QueueType, ValueView};
use crate::{execute, Outcome};

verus! {

/// Runs `cmds` one after another: the queues afterwards, and each result.
pub open spec fn run_all(
    queues: Queues,
    kinds: spec_fn(Seq<char>) -> Option<QueueType>,
    cmds: Seq<CommandView>,
) -> (Queues, Seq<Outcome>)
    decreases cmds.len(),
{
    if cmds.len() == 0 {
        (queues, Seq::empty())
    } else {
        let (next, r) = execute(queues, kinds, cmds[0]);
        let (last, rs) = run_all(next, kinds, cmds.drop_first());
        (last, seq![r] + rs)
    }
}

/// A command that acts on a queue directly, not through an assertion.
pub open spec fn is_plain(c: CommandView) -> bool {
    !(c is Assert) && !(c is AssertError)
}

/// The name of the queue that `c` acts on, if any.
pub open spec fn target(c: CommandView) -> Option<Seq<char>>
    decreases c,
{
    match c {
        CommandView::Enqueue(id, _) => Some(id),
        CommandView::Dequeue(id) => Some(id),
        CommandView::Length(id) => Some(id),
        CommandView::Peek(id) => Some(id),
        CommandView::Assert(inner, _) => target(*inner),
        CommandView::AssertError(inner) => target(*inner),
        CommandView::Noop => None,
    }
}

/// The values that the enqueues among `cmds` append to queue `id`.
pub open spec fn enqueued(
    kinds: spec_fn(Seq<char>) -> Option<QueueType>,
    cmds: Seq<CommandView>,
    id: Seq<char>,
) -> Seq<ValueView>
    decreases cmds.len(),
{
    if cmds.len() == 0 {
        Seq::empty()
    } else {
        let rest = enqueued(kinds, cmds.drop_first(), id);
        match cmds[0] {
            CommandView::Enqueue(i, v) => if i == id && admits(kinds(id), v) {
                seq![v] + rest
            } else {
                rest
            },
            _ => rest,
        }
    }
}

/// The values that the dequeues among `cmds` returned from queue `id`, given
/// the results of `cmds`.
pub open spec fn dequeued(
    cmds: Seq<CommandView>,
    results: Seq<Outcome>,
    id: Seq<char>,
) -> Seq<ValueView>
    decreases cmds.len(),
{
    if cmds.len() == 0 || results.len() == 0 {
        Seq::empty()
    } else {
        let rest = dequeued(cmds.drop_first(), results.drop_first(), id);
        match (cmds[0], results[0]) {
            (CommandView::Dequeue(i), Ok(Some(v))) => if i == id {
                seq![v] + rest
            } else {
                rest
            },
            _ => rest,
        }
    }
}

/// Isolation: a command changes no queue but the one it names.
pub proof fn isolation(
    queues: Queues,
    kinds: spec_fn(Seq<char>) -> Option<QueueType>,
    cmd: CommandView,
    other: Seq<char>,
)
    requires
        target(cmd) != Some(other),
    ensures
        queue_of(execute(queues, kinds, cmd).0, other) == queue_of(queues, other),
    decreases cmd,
{
    match cmd {
        CommandView::Assert(inner, _) => isolation(queues, kinds, *inner, other),
        CommandView::AssertError(inner) => isolation(queues, kinds, *inner, other),
        _ => {},
    }
}

/// FIFO discipline of every command, assertions included: a queue either
/// stays as it is, or gains one value at its tail, or loses its head.
pub proof fn fifo_step(
    queues: Queues,
    kinds: spec_fn(Seq<char>) -> Option<QueueType>,
    cmd: CommandView,
    id: Seq<char>,
)
    ensures
        ({
            let q = queue_of(queues, id);
            let next = queue_of(execute(queues, kinds, cmd).0, id);
            ||| next == q
            ||| exists|v: ValueView| next == q.push(v)
            ||| q.len() > 0 && next == q.drop_first()
        }),
    decreases cmd,
{
    let q = queue_of(queues, id);
    let next = queue_of(execute(queues, kinds, cmd).0, id);
    match cmd {
        CommandView::Assert(inner, _) => fifo_step(queues, kinds, *inner, id),
        CommandView::AssertError(inner) => fifo_step(queues, kinds, *inner, id),
        CommandView::Enqueue(i, v) => {
            if i == id && admits(kinds(id), v) {
                assert(next == q.push(v));
            }
        },
        _ => {},
    }
}

/// FIFO order: over any run of plain commands, the values dequeued from a
/// queue, followed by what it still holds, are exactly what it held before,
/// followed by the values enqueued into it, in order.
pub proof fn fifo_order(
    queues: Queues,
    kinds: spec_fn(Seq<char>) -> Option<QueueType>,
    cmds: Seq<CommandView>,
    id: Seq<char>,
)
    requires
        forall|i: int| 0 <= i < cmds.len() ==> is_plain(#[trigger] cmds[i]),
    ensures
        dequeued(cmds, run_all(queues, kinds, cmds).1, id) + queue_of(
            run_all(queues, kinds, cmds).0,
            id,
        ) == queue_of(queues, id) + enqueued(kinds, cmds, id),
    decreases cmds.len(),
{
    if cmds.len() > 0 {
        let c = cmds[0];
        let (next, r) = execute(queues, kinds, c);
        let rest = cmds.drop_first();
        assert forall|i: int| 0 <= i < rest.len() implies is_plain(#[trigger] rest[i]) by {
            assert(rest[i] == cmds[i + 1]);
        }
        fifo_order(next, kinds, rest, id);
        let (last, rs) = run_all(next, kinds, rest);
        let all = seq![r] + rs;
        assert(run_all(queues, kinds, cmds) == (last, all));
        assert(all.drop_first() == rs);
        assert(all[0] == r);
        let s = queue_of(queues, id);
        if target(c) != Some(id) {
            isolation(queues, kinds, c, id);
            assert(dequeued(cmds, all, id) == dequeued(rest, rs, id));
            assert(enqueued(kinds, cmds, id) == enqueued(kinds, rest, id));
        } else {
            match c {
                CommandView::Enqueue(i, v) => {
                    assert(dequeued(cmds, all, id) == dequeued(rest, rs, id));
                    if admits(kinds(id), v) {
                        assert(queue_of(next, id) == s.push(v));
                        assert(s + (seq![v] + enqueued(kinds, rest, id)) =~= s.push(v) + enqueued(
                            kinds,
                            rest,
                            id,
                        ));
                    }
                },
                CommandView::Dequeue(i) => {
                    assert(enqueued(kinds, cmds, id) == enqueued(kinds, rest, id));
                    if s.len() > 0 {
                        assert(queue_of(next, id) == s.drop_first());
                        assert(dequeued(cmds, all, id) == seq![s[0]] + dequeued(rest, rs, id));
                        assert(seq![s[0]] + s.drop_first() =~= s);
                        assert((seq![s[0]] + dequeued(rest, rs, id)) + queue_of(last, id) =~= seq![
                            s[0],
                        ] + (dequeued(rest, rs, id) + queue_of(last, id)));
                        assert(s + enqueued(kinds, rest, id) =~= seq![s[0]] + (s.drop_first()
                            + enqueued(kinds, rest, id)));
                    }
                },
                _ => {
                    assert(dequeued(cmds, all, id) == dequeued(rest, rs, id));
                    assert(enqueued(kinds, cmds, id) == enqueued(kinds, rest, id));
                },
            }
        }
    } else {
        assert(queue_of(queues, id) + Seq::<ValueView>::empty() =~= queue_of(queues, id));
        assert(Seq::<ValueView>::empty() + queue_of(queues, id) =~= queue_of(queues, id));
    }
}

/// Length accounting: over any run of plain commands, a queue's length grows
/// by the number of successful enqueues into it and shrinks by the number of
/// successful dequeues from it.
pub proof fn length_accounting(
    queues: Queues,
    kinds: spec_fn(Seq<char>) -> Option<QueueType>,
    cmds: Seq<CommandView>,
    id: Seq<char>,
)
    requires
        forall|i: int| 0 <= i < cmds.len() ==> is_plain(#[trigger] cmds[i]),
    ensures
        queue_of(run_all(queues, kinds, cmds).0, id).len() == queue_of(queues, id).len()
            + enqueued(kinds, cmds, id).len() - dequeued(cmds, run_all(queues, kinds, cmds).1, id).len(),
{
    fifo_order(queues, kinds, cmds, id);
    let (last, results) = run_all(queues, kinds, cmds);
    let d = dequeued(cmds, results, id);
    assert((d + queue_of(last, id)).len() == d.len() + queue_of(last, id).len());
    assert((queue_of(queues, id) + enqueued(kinds, cmds, id)).len() == queue_of(queues, id).len()
        + enqueued(kinds, cmds, id).len());
}

/// Empty queues: a dequeue or a peek of a queue that holds nothing fails with
/// `EmptyQueue` and changes nothing; of any other queue it gives its head.
pub proof fn empty_queue_contract(
    queues: Queues,
    kinds: spec_fn(Seq<char>) -> Option<QueueType>,
    cmd: CommandView,
)
    requires
        cmd is Dequeue || cmd is Peek,
    ensures
        ({
            let id = if cmd is Dequeue {
                cmd->Dequeue_0
            } else {
                cmd->Peek_0
            };
            let q = queue_of(queues, id);
            &&& q.len() == 0 ==> execute(queues, kinds, cmd) == (queues, Err::<Option<ValueView>, ErrorView>(
                empty_queue(id),
            ))
            &&& q.len() > 0 ==> execute(queues, kinds, cmd).1 == Ok::<Option<ValueView>, ErrorView>(Some(q[0]))
        }),
{
}

/// Assertions: `Assert(c, v)` succeeds exactly when `c` gives a value equal
/// to `v`, and `AssertError(c)` exactly when `c` fails; either way the queues
/// end as `c` leaves them.
pub proof fn assert_semantics(
    queues: Queues,
    kinds: spec_fn(Seq<char>) -> Option<QueueType>,
    c: CommandView,
    v: ValueView,
)
    ensures
        execute(queues, kinds, CommandView::Assert(Box::new(c), v)).1 is Ok <==> (execute(
            queues,
            kinds,
            c,
        ).1 matches Ok(Some(x)) && x.same(v)),
        execute(queues, kinds, CommandView::AssertError(Box::new(c))).1 is Ok <==> execute(
            queues,
            kinds,
            c,
        ).1 is Err,
        execute(queues, kinds, CommandView::Assert(Box::new(c), v)).0 == execute(queues, kinds, c).0,
        execute(queues, kinds, CommandView::AssertError(Box::new(c))).0 == execute(queues, kinds, c).0,
{
}

/// Commands that enqueue each of `vs` into queue `id`, in order.
pub open spec fn enqueues(id: Seq<char>, vs: Seq<ValueView>) -> Seq<CommandView> {
    Seq::new(vs.len(), |i: int| CommandView::Enqueue(id, vs[i]))
}

/// `n` commands that each dequeue from queue `id`.
pub open spec fn dequeues(id: Seq<char>, n: nat) -> Seq<CommandView> {
    Seq::new(n, |i: int| CommandView::Dequeue(id))
}

proof fn lemma_run_all_append(
    queues: Queues,
    kinds: spec_fn(Seq<char>) -> Option<QueueType>,
    a: Seq<CommandView>,
    b: Seq<CommandView>,
)
    ensures
        run_all(queues, kinds, a).1.len() == a.len(),
        run_all(queues, kinds, a + b) == (
            run_all(run_all(queues, kinds, a).0, kinds, b).0,
            run_all(queues, kinds, a).1 + run_all(run_all(queues, kinds, a).0, kinds, b).1,
        ),
    decreases a.len(),
{
    if a.len() == 0 {
        assert(a + b =~= b);
        assert(Seq::<Outcome>::empty() + run_all(queues, kinds, b).1 =~= run_all(
            queues,
            kinds,
            b,
        ).1);
    } else {
        let next = execute(queues, kinds, a[0]).0;
        lemma_run_all_append(next, kinds, a.drop_first(), b);
        assert((a + b).drop_first() =~= a.drop_first() + b);
        assert((a + b)[0] == a[0]);
        let r = execute(queues, kinds, a[0]).1;
        let ra = run_all(next, kinds, a.drop_first()).1;
        let rb = run_all(run_all(next, kinds, a.drop_first()).0, kinds, b).1;
        assert(seq![r] + (ra + rb) =~= (seq![r] + ra) + rb);
    }
}

proof fn lemma_dequeued_append(
    a: Seq<CommandView>,
    ra: Seq<Outcome>,
    b: Seq<CommandView>,
    rb: Seq<Outcome>,
    id: Seq<char>,
)
    requires
        a.len() == ra.len(),
        b.len() == rb.len(),
    ensures
        dequeued(a + b, ra + rb, id) == dequeued(a, ra, id) + dequeued(b, rb, id),
    decreases a.len(),
{
    if a.len() == 0 {
        assert(a + b =~= b);
        assert(ra + rb =~= rb);
        assert(Seq::<ValueView>::empty() + dequeued(b, rb, id) =~= dequeued(b, rb, id));
    } else {
        lemma_dequeued_append(a.drop_first(), ra.drop_first(), b, rb, id);
        assert((a + b).drop_first() =~= a.drop_first() + b);
        assert((ra + rb).drop_first() =~= ra.drop_first() + rb);
        assert((a + b)[0] == a[0]);
        assert((ra + rb)[0] == ra[0]);
        let rest = dequeued(a.drop_first(), ra.drop_first(), id);
        let tail = dequeued(b, rb, id);
        if let (CommandView::Dequeue(i), Ok(Some(v))) = (a[0], ra[0]) {
            if i == id {
                assert(seq![v] + (rest + tail) =~= (seq![v] + rest) + tail);
            }
        }
    }
}

proof fn lemma_fill(
    queues: Queues,
    kinds: spec_fn(Seq<char>) -> Option<QueueType>,
    id: Seq<char>,
    vs: Seq<ValueView>,
)
    requires
        forall|i: int| 0 <= i < vs.len() ==> admits(kinds(id), #[trigger] vs[i]),
    ensures
        queue_of(run_all(queues, kinds, enqueues(id, vs)).0, id) == queue_of(queues, id) + vs,
        dequeued(enqueues(id, vs), run_all(queues, kinds, enqueues(id, vs)).1, id) == Seq::<ValueView>::empty(),
    decreases vs.len(),
{
    let cmds = enqueues(id, vs);
    if vs.len() == 0 {
        assert(queue_of(queues, id) + vs =~= queue_of(queues, id));
    } else {
        let next = execute(queues, kinds, cmds[0]).0;
        assert(cmds.drop_first() =~= enqueues(id, vs.drop_first()));
        assert(admits(kinds(id), vs[0]));
        assert forall|i: int| 0 <= i < vs.drop_first().len() implies admits(
            kinds(id),
            #[trigger] vs.drop_first()[i],
        ) by {
            assert(vs.drop_first()[i] == vs[i + 1]);
        }
        lemma_fill(next, kinds, id, vs.drop_first());
        let r = execute(queues, kinds, cmds[0]).1;
        let rs = run_all(next, kinds, cmds.drop_first()).1;
        assert(run_all(queues, kinds, cmds).1 == seq![r] + rs);
        assert((seq![r] + rs).drop_first() =~= rs);
        assert(queue_of(next, id) == queue_of(queues, id).push(vs[0]));
        assert(queue_of(queues, id).push(vs[0]) + vs.drop_first() =~= queue_of(queues, id) + vs);
    }
}

proof fn lemma_drain(
    queues: Queues,
    kinds: spec_fn(Seq<char>) -> Option<QueueType>,
    id: Seq<char>,
    n: nat,
)
    requires
        queue_of(queues, id).len() == n,
    ensures
        queue_of(run_all(queues, kinds, dequeues(id, n)).0, id) == Seq::<ValueView>::empty(),
        dequeued(dequeues(id, n), run_all(queues, kinds, dequeues(id, n)).1, id) == queue_of(
            queues,
            id,
        ),
    decreases n,
{
    let cmds = dequeues(id, n);
    let s = queue_of(queues, id);
    if n == 0 {
        assert(s =~= Seq::<ValueView>::empty());
    } else {
        let next = execute(queues, kinds, cmds[0]).0;
        assert(cmds.drop_first() =~= dequeues(id, (n - 1) as nat));
        assert(queue_of(next, id) == s.drop_first());
        lemma_drain(next, kinds, id, (n - 1) as nat);
        let r = execute(queues, kinds, cmds[0]).1;
        let rs = run_all(next, kinds, cmds.drop_first()).1;
        assert(r == Ok::<Option<ValueView>, ErrorView>(Some(s[0])));
        assert(run_all(queues, kinds, cmds).1 == seq![r] + rs);
        assert((seq![r] + rs).drop_first() =~= rs);
        assert((seq![r] + rs)[0] == r);
        assert(seq![s[0]] + s.drop_first() =~= s);
    }
}

/// No loss and no duplication: enqueueing `n` values into an empty queue and
/// then dequeueing `n` times returns exactly those values, in the order in
/// which the enqueues were applied, and leaves the queue empty.
pub proof fn enqueue_then_drain(
    queues: Queues,
    kinds: spec_fn(Seq<char>) -> Option<QueueType>,
    id: Seq<char>,
    vs: Seq<ValueView>,
)
    requires
        queue_of(queues, id).len() == 0,
        forall|i: int| 0 <= i < vs.len() ==> admits(kinds(id), #[trigger] vs[i]),
    ensures
        ({
            let cmds = enqueues(id, vs) + dequeues(id, vs.len());
            let (after, results) = run_all(queues, kinds, cmds);
            &&& dequeued(cmds, results, id) == vs
            &&& dequeued(cmds, results, id).to_multiset() == vs.to_multiset()
            &&& queue_of(after, id).len() == 0
        }),
{
    let a = enqueues(id, vs);
    let b = dequeues(id, vs.len());
    lemma_run_all_append(queues, kinds, a, b);
    lemma_fill(queues, kinds, id, vs);
    let mid = run_all(queues, kinds, a).0;
    assert(queue_of(queues, id) + vs =~= vs);
    lemma_drain(mid, kinds, id, vs.len());
    lemma_run_all_append(mid, kinds, b, Seq::empty());
    lemma_dequeued_append(a, run_all(queues, kinds, a).1, b, run_all(mid, kinds, b).1, id);
    assert(Seq::<ValueView>::empty() + vs =~= vs);
}

} // verus!
