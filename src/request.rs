use vstd::prelude::*;
use crate::context::{extract, extract_spec};
use crate::greeting::{greeting, greeting_text, GreetingStyle};
use crate::tracer::{fresh_id, id_in_use, AttrValue, Span, SpanStatus, Tracer};

verus! {

/// The trace of one request in flight: its trace id and the stack of its open
/// spans, the root at the bottom and the innermost open span on top.
pub struct RequestTrace {
    trace_id: u128,
    stack: Vec<usize>,
}

/// Relies on opentelemetry_sdk's `RandomIdGenerator::new_trace_id`, a random trace id;
/// nothing is promised of its value.
#[verifier::external_body]
fn random_trace_id() -> (r: u128) {
    let g = opentelemetry::sdk::trace::RandomIdGenerator::default();
    u128::from_be_bytes(opentelemetry::sdk::trace::IdGenerator::new_trace_id(&g).to_bytes())
}

/// A trace id that is not the invalid all-zero id.
fn fresh_trace_id() -> (r: u128)
    ensures
        r != 0,
{
    let id = random_trace_id();
    if id == 0 {
        1
    } else {
        id
    }
}

/// The status a span ends with: an error description makes it a failure.
pub open spec fn outcome_status(error: Option<String>) -> SpanStatus {
    if error is Some {
        SpanStatus::Error
    } else {
        SpanStatus::Success
    }
}

/// The status a request's root span ends with for an HTTP status code.
pub open spec fn http_outcome_status(code: u16) -> SpanStatus {
    if code >= 500 {
        SpanStatus::Error
    } else {
        SpanStatus::Success
    }
}

pub open spec fn increasing(s: Seq<usize>) -> bool {
    forall|i: int, j: int| 0 <= i < j < s.len() ==> #[trigger] s[i] < #[trigger] s[j]
}

/// Each span of `stack` is a child of the one below it, in trace `trace`: the
/// stack is a path of the trace tree.
pub open spec fn nested_path(stack: Seq<usize>, spans: Seq<Span>, trace: u128) -> bool {
    forall|i: int| 1 <= i < stack.len() ==> #[trigger] linked(stack, spans, trace, i)
}

/// The span at stack position `i` is a child of the one at `i - 1`, in trace `trace`.
pub open spec fn linked(stack: Seq<usize>, spans: Seq<Span>, trace: u128, i: int) -> bool {
    &&& spans[stack[i] as int].parent_span_id == Some(spans[stack[i - 1] as int].span_id)
    &&& spans[stack[i] as int].trace_id == trace
}

proof fn lemma_path_push(stack: Seq<usize>, spans: Seq<Span>, grown: Seq<Span>, h: usize, trace: u128)
    requires
        stack.len() >= 1,
        nested_path(stack, spans, trace),
        increasing(stack),
        forall|i: int| 0 <= i < stack.len() ==> #[trigger] stack[i] < spans.len(),
        h == spans.len(),
        grown.len() == spans.len() + 1,
        grown.subrange(0, h as int) == spans,
        grown[h as int].parent_span_id == Some(spans[stack.last() as int].span_id),
        grown[h as int].trace_id == trace,
    ensures
        nested_path(stack.push(h), grown, trace),
        increasing(stack.push(h)),
{
    let ns = stack.push(h);
    assert forall|i: int| 0 <= i < stack.len() implies grown[#[trigger] stack[i] as int] == spans[stack[i] as int] by {
        assert(grown[stack[i] as int] == grown.subrange(0, h as int)[stack[i] as int]);
    }
    assert forall|i: int| 1 <= i < ns.len() implies #[trigger] linked(ns, grown, trace, i) by {
        assert(ns[i - 1] == stack[i - 1]);
        assert(grown[stack[i - 1] as int] == spans[stack[i - 1] as int]);
        if i < stack.len() {
            assert(ns[i] == stack[i]);
            assert(grown[stack[i] as int] == spans[stack[i] as int]);
            assert(linked(stack, spans, trace, i));
        }
    }
    assert forall|i: int, j: int| 0 <= i < j < ns.len() implies #[trigger] ns[i] < #[trigger] ns[j] by {
        assert(ns[i] == stack[i]);
        if j < stack.len() {
            assert(ns[j] == stack[j]);
        }
    }
}

proof fn lemma_path_pop(stack: Seq<usize>, spans: Seq<Span>, changed: Seq<Span>, trace: u128)
    requires
        stack.len() >= 1,
        nested_path(stack, spans, trace),
        increasing(stack),
        forall|i: int| 0 <= i < stack.len() ==> #[trigger] stack[i] < spans.len(),
        changed.len() == spans.len(),
        forall|k: int| 0 <= k < spans.len() && k != stack.last() ==> #[trigger] changed[k] == spans[k],
    ensures
        nested_path(stack.drop_last(), changed, trace),
        stack.len() >= 2 ==> changed[stack[0] as int] == spans[stack[0] as int],
        increasing(stack.drop_last()),
        forall|i: int| 0 <= i < stack.drop_last().len() ==> #[trigger] stack.drop_last()[i] < changed.len(),
{
    let ns = stack.drop_last();
    let top = stack.len() - 1;
    if stack.len() >= 2 {
        assert(stack[0] < stack[top]);
    }
    assert forall|i: int| 0 <= i < ns.len() implies changed[#[trigger] ns[i] as int] == spans[ns[i] as int] by {
        assert(ns[i] == stack[i]);
        assert(stack[i] < stack[top]);
        assert(stack[i] < spans.len());
    }
    assert forall|i: int| 1 <= i < ns.len() implies #[trigger] linked(ns, changed, trace, i) by {
        assert(changed[ns[i - 1] as int] == spans[ns[i - 1] as int]);
        assert(changed[ns[i] as int] == spans[ns[i] as int]);
        assert(ns[i] == stack[i] && ns[i - 1] == stack[i - 1]);
        assert(linked(stack, spans, trace, i));
    }
    assert forall|i: int, j: int| 0 <= i < j < ns.len() implies #[trigger] ns[i] < #[trigger] ns[j] by {
        assert(ns[i] == stack[i] && ns[j] == stack[j]);
    }
    assert forall|i: int| 0 <= i < ns.len() implies #[trigger] ns[i] < changed.len() by {
        assert(ns[i] == stack[i]);
    }
}

/// Two records of one span: the same ids, trace, parent and name.
pub open spec fn same_identity(a: Span, b: Span) -> bool {
    &&& a.span_id == b.span_id
    &&& a.parent_span_id == b.parent_span_id
    &&& a.trace_id == b.trace_id
    &&& a.name == b.name
    &&& a.start_time == b.start_time
}

impl RequestTrace {
    /// Handles of the open spans, outermost first.
    pub closed spec fn stack(&self) -> Seq<usize> {
        self.stack@
    }

    pub closed spec fn trace(&self) -> u128 {
        self.trace_id
    }

    /// Handle of the request's root span.
    pub open spec fn root(&self) -> usize {
        self.stack()[0]
    }

    /// Handle of the innermost open span, the active context.
    pub open spec fn current(&self) -> usize {
        self.stack().last()
    }

    #[verifier::opaque]
    pub open spec fn wf(&self, tracer: &Tracer) -> bool {
        &&& self.stack().len() >= 1
        &&& forall|i: int| 0 <= i < self.stack().len() ==> #[trigger] self.stack()[i] < tracer.spans().len()
        &&& increasing(self.stack())
        &&& tracer.spans()[self.stack()[0] as int].trace_id == self.trace()
        &&& nested_path(self.stack(), tracer.spans(), self.trace())
    }

    pub fn trace_id(&self) -> (r: u128)
        ensures
            r == self.trace(),
    {
        self.trace_id
    }

    /// Handle of the innermost open span.
    pub fn current_span(&self) -> (r: usize)
        requires
            self.stack().len() >= 1,
        ensures
            r == self.current(),
    {
        self.stack[self.stack.len() - 1]
    }

    /// Handle of the root span.
    pub fn root_span(&self) -> (r: usize)
        requires
            self.stack().len() >= 1,
        ensures
            r == self.root(),
    {
        self.stack[0]
    }

    /// Number of open spans of this request.
    pub fn depth(&self) -> (r: usize)
        ensures
            r == self.stack().len(),
    {
        self.stack.len()
    }
}

/// The request's invariant depends only on the ids, parents and traces of the spans.
proof fn lemma_wf_same_links(trace: &RequestTrace, before: &Tracer, after: &Tracer)
    requires
        trace.wf(before),
        after.spans().len() == before.spans().len(),
        forall|k: int|
            0 <= k < before.spans().len() ==> {
                &&& (#[trigger] after.spans()[k]).span_id == before.spans()[k].span_id
                &&& after.spans()[k].parent_span_id == before.spans()[k].parent_span_id
                &&& after.spans()[k].trace_id == before.spans()[k].trace_id
            },
    ensures
        trace.wf(after),
{
    reveal(RequestTrace::wf);
    let st = trace.stack();
    assert(after.spans()[st[0] as int].trace_id == before.spans()[st[0] as int].trace_id);
    assert forall|i: int| 1 <= i < st.len() implies #[trigger] linked(st, after.spans(), trace.trace(), i) by {
        assert(linked(st, before.spans(), trace.trace(), i));
        assert(st[i] < before.spans().len() && st[i - 1] < before.spans().len());
        assert(after.spans()[st[i] as int].span_id == before.spans()[st[i] as int].span_id);
        assert(after.spans()[st[i - 1] as int].span_id == before.spans()[st[i - 1] as int].span_id);
    }
}

/// Within a request, every open span is a child of the span that was active
/// when it was opened, in the request's trace, at any depth of nesting: the
/// open spans form a path of the trace tree from the root.
pub proof fn lemma_open_spans_form_path(trace: &RequestTrace, tracer: &Tracer)
    requires
        trace.wf(tracer),
    ensures
        forall|i: int|
            1 <= i < trace.stack().len() ==> {
                &&& tracer.spans()[trace.stack()[i] as int].parent_span_id == Some(
                    tracer.spans()[trace.stack()[i - 1] as int].span_id,
                )
                &&& tracer.spans()[trace.stack()[i] as int].trace_id == trace.trace()
            },
{
    reveal(RequestTrace::wf);
    assert forall|i: int| 1 <= i < trace.stack().len() implies {
        &&& tracer.spans()[trace.stack()[i] as int].parent_span_id == Some(
            tracer.spans()[trace.stack()[i - 1] as int].span_id,
        )
        &&& tracer.spans()[trace.stack()[i] as int].trace_id == trace.trace()
    } by {
        assert(linked(trace.stack(), tracer.spans(), trace.trace(), i));
    }
}

/// Opens the root span of an inbound request. Where the headers carry a valid
/// trace context, the root continues that trace under the remote span;
/// otherwise it starts a fresh trace and has no parent.
pub fn begin_request(tracer: &mut Tracer, headers: &Vec<(String, String)>, now: u64) -> (r: RequestTrace)
    requires
        old(tracer).wf(),
        old(tracer).spans().len() < usize::MAX - 2,
    ensures
        final(tracer).wf(),
        r.wf(final(tracer)),
        r.stack() == seq![old(tracer).spans().len() as usize],
        final(tracer).service() == old(tracer).service(),
        final(tracer).is_shut_down() == old(tracer).is_shut_down(),
        final(tracer).spans().len() == old(tracer).spans().len() + 1,
        final(tracer).spans().subrange(0, old(tracer).spans().len() as int) == old(tracer).spans(),
        final(tracer).emitted() == old(tracer).emitted(),
        final(tracer).pending() == old(tracer).pending(),
        ({
            let root = final(tracer).spans()[old(tracer).spans().len() as int];
            &&& root.name@ == "request"@
            &&& root.trace_id == r.trace()
            &&& root.end_time is None
            &&& root.start_time == now
            &&& root.attributes@.len() == 0
            &&& fresh_id(old(tracer).spans(), root.parent_span_id, root.span_id)
            &&& match extract_spec(headers@) {
                Some(ctx) => root.trace_id == ctx.trace_id && root.parent_span_id == Some(ctx.span_id),
                None => root.parent_span_id is None && root.trace_id != 0,
            }
        }),
{
    let (trace_id, parent) = match extract(headers) {
        Some(ctx) => (ctx.trace_id, Some(ctx.span_id)),
        None => (fresh_trace_id(), None),
    };
    let h = tracer.start_span(String::from_str("request"), trace_id, parent, now);
    proof {
        reveal(RequestTrace::wf);
    }
    let mut stack = Vec::new();
    stack.push(h);
    proof {
        assert(stack@ =~= seq![h]);
    }
    RequestTrace { trace_id, stack }
}

impl RequestTrace {
    /// Opens a span for an instrumented call made inside this request: its
    /// parent is the innermost open span, and it becomes the innermost itself.
    pub fn enter(&mut self, tracer: &mut Tracer, name: String, now: u64) -> (h: usize)
        requires
            old(tracer).wf(),
            old(self).wf(old(tracer)),
            old(tracer).spans().len() < usize::MAX - 2,
        ensures
            final(tracer).wf(),
            final(self).wf(final(tracer)),
            h == old(tracer).spans().len(),
            final(tracer).service() == old(tracer).service(),
            final(tracer).is_shut_down() == old(tracer).is_shut_down(),
            fresh_id(old(tracer).spans(), None, final(tracer).spans()[h as int].span_id),
            final(tracer).spans()[h as int].trace_id == old(tracer).spans()[old(self).current() as int].trace_id,
            final(tracer).spans()[h as int].start_time == now,
            final(tracer).spans()[h as int].attributes@.len() == 0,
            final(tracer).spans()[h as int].status == SpanStatus::Unset,
            final(self).stack() == old(self).stack().push(h),
            final(self).trace() == old(self).trace(),
            final(tracer).spans().len() == old(tracer).spans().len() + 1,
            final(tracer).spans().subrange(0, h as int) == old(tracer).spans(),
            final(tracer).spans()[h as int].parent_span_id == Some(
                old(tracer).spans()[old(self).current() as int].span_id,
            ),
            final(tracer).spans()[h as int].trace_id == old(self).trace(),
            final(tracer).spans()[h as int].name@ == name@,
            final(tracer).spans()[h as int].end_time is None,
            final(tracer).emitted() == old(tracer).emitted(),
            final(tracer).pending() == old(tracer).pending(),
    {
        proof {
            reveal(RequestTrace::wf);
        }
        let cur = self.stack[self.stack.len() - 1];
        let parent = tracer.span(cur).span_id;
        proof {
            let os = self.stack();
            if os.len() > 1 {
                assert(linked(os, tracer.spans(), self.trace(), os.len() - 1));
            }
        }
        let h = tracer.start_span(name, self.trace_id, Some(parent), now);
        self.stack.push(h);
        proof {
            let os = old(self).stack();
            assert(self.stack() == os.push(h));
            lemma_path_push(os, old(tracer).spans(), tracer.spans(), h, self.trace());
            assert forall|i: int| 0 <= i < self.stack().len() implies #[trigger] self.stack()[i] < tracer.spans().len() by {
                if i < os.len() {
                    assert(self.stack()[i] == os[i]);
                }
            }
        }
        h
    }

    /// Closes the innermost span at the end of an instrumented call: a
    /// failure's description is recorded as an attribute and the span ends
    /// with status `Error`; a success ends it with status `Success`.
    pub fn exit(&mut self, tracer: &mut Tracer, error: Option<String>, now: u64)
        requires
            old(tracer).wf(),
            old(self).wf(old(tracer)),
            old(self).stack().len() >= 2,
            now >= old(tracer).spans()[old(self).current() as int].start_time,
        ensures
            final(tracer).wf(),
            final(self).wf(final(tracer)),
            final(self).stack() == old(self).stack().drop_last(),
            final(tracer).service() == old(tracer).service(),
            final(tracer).is_shut_down() == old(tracer).is_shut_down(),
            final(self).trace() == old(self).trace(),
            final(tracer).spans().len() == old(tracer).spans().len(),
            final(tracer).spans()[old(self).current() as int].end_time is Some,
            same_identity(final(tracer).spans()[old(self).current() as int], old(tracer).spans()[old(self).current() as int]),
            old(tracer).spans()[old(self).current() as int].end_time is None ==> {
                let s = final(tracer).spans()[old(self).current() as int];
                &&& s.end_time == Some(now)
                &&& s.status == outcome_status(error)
                &&& final(tracer).emitted() == old(tracer).emitted().push(old(self).current())
                &&& error is None ==> s.attributes == old(tracer).spans()[old(self).current() as int].attributes
                &&& error is Some ==> {
                    &&& s.attributes@.drop_last() == old(tracer).spans()[old(self).current() as int].attributes@
                    &&& s.attributes@.len() >= 1
                    &&& s.attributes@.last().0@ == "error.description"@
                    &&& s.attributes@.last().1 == AttrValue::Str(error->0)
                }
            },
            forall|k: int|
                0 <= k < old(tracer).spans().len() && k != old(self).current() ==> #[trigger] final(tracer).spans()[k]
                    == old(tracer).spans()[k],
    {
        proof {
            reveal(RequestTrace::wf);
        }
        let h = self.stack.pop().unwrap();
        let status = match error {
            Some(msg) => {
                tracer.set_attribute(h, String::from_str("error.description"), AttrValue::Str(msg));
                SpanStatus::Error
            },
            None => SpanStatus::Success,
        };
        tracer.finish(h, status, now);
        proof {
            let os = old(self).stack();
            assert(self.stack() =~= os.drop_last());
            lemma_path_pop(os, old(tracer).spans(), tracer.spans(), self.trace());
        }
    }
}

/// Closes a request's root span once its response is ready: the HTTP status is
/// recorded as an attribute, and a server error (5xx) ends the span with
/// status `Error`.
pub fn end_request(trace: RequestTrace, tracer: &mut Tracer, http_status: u16, now: u64)
    requires
        old(tracer).wf(),
        trace.wf(old(tracer)),
        now >= old(tracer).spans()[trace.root() as int].start_time,
    ensures
        final(tracer).wf(),
        final(tracer).service() == old(tracer).service(),
        final(tracer).is_shut_down() == old(tracer).is_shut_down(),
        final(tracer).spans().len() == old(tracer).spans().len(),
        final(tracer).spans()[trace.root() as int].end_time is Some,
        same_identity(final(tracer).spans()[trace.root() as int], old(tracer).spans()[trace.root() as int]),
        old(tracer).spans()[trace.root() as int].end_time is None ==> {
            let s = final(tracer).spans()[trace.root() as int];
            &&& s.end_time == Some(now)
            &&& s.status == http_outcome_status(http_status)
            &&& final(tracer).emitted() == old(tracer).emitted().push(trace.root())
            &&& s.attributes@.drop_last() == old(tracer).spans()[trace.root() as int].attributes@
            &&& s.attributes@.len() >= 1
            &&& s.attributes@.last().0@ == "http.status_code"@
            &&& s.attributes@.last().1 == AttrValue::Int(http_status as i64)
        },
        forall|k: int|
            0 <= k < old(tracer).spans().len() && k != trace.root() ==> #[trigger] final(tracer).spans()[k]
                == old(tracer).spans()[k],
{
    proof {
        reveal(RequestTrace::wf);
    }
    let root = trace.stack[0];
    tracer.set_attribute(root, String::from_str("http.status_code"), AttrValue::Int(http_status as i64));
    let status = if http_status >= 500 {
        SpanStatus::Error
    } else {
        SpanStatus::Success
    };
    tracer.finish(root, status, now);
}

/// Answers `GET /person/id/{id}` inside a traced request: a root span for the
/// request, a child span for the greeting, and the greeting as the body.
pub fn handle_person(
    tracer: &mut Tracer,
    headers: &Vec<(String, String)>,
    id: &str,
    style: GreetingStyle,
    now: u64,
) -> (body: String)
    requires
        old(tracer).wf(),
        old(tracer).spans().len() < usize::MAX - 3,
    ensures
        body@ == greeting_text(style, id@),
        final(tracer).wf(),
        final(tracer).service() == old(tracer).service(),
        final(tracer).is_shut_down() == old(tracer).is_shut_down(),
        ({
            let n = old(tracer).spans().len();
            let root = final(tracer).spans()[n as int];
            let child = final(tracer).spans()[n + 1 as int];
            &&& final(tracer).spans().len() == n + 2
            &&& final(tracer).spans().subrange(0, n as int) == old(tracer).spans()
            &&& final(tracer).emitted() == old(tracer).emitted().push((n + 1) as usize).push(n as usize)
            &&& root.name@ == "request"@
            &&& child.name@ == "greet_user"@
            &&& child.parent_span_id == Some(root.span_id)
            &&& child.trace_id == root.trace_id
            &&& root.status == SpanStatus::Success
            &&& child.status == SpanStatus::Success
            &&& fresh_id(old(tracer).spans(), root.parent_span_id, root.span_id)
            &&& !id_in_use(old(tracer).spans(), child.span_id)
            &&& child.span_id != root.span_id && child.span_id != 0
            &&& root.start_time == now && root.end_time == Some(now)
            &&& child.start_time == now && child.end_time == Some(now)
            &&& root.attributes@.len() == 1
            &&& root.attributes@[0].0@ == "http.status_code"@
            &&& root.attributes@[0].1 == AttrValue::Int(200)
            &&& child.attributes@.len() == 1
            &&& child.attributes@[0].0@ == "username"@
            &&& match child.attributes@[0].1 {
                AttrValue::Str(v) => v@ == id@,
                _ => false,
            }
            &&& match extract_spec(headers@) {
                Some(ctx) => root.trace_id == ctx.trace_id && root.parent_span_id == Some(ctx.span_id),
                None => root.parent_span_id is None && root.trace_id != 0,
            }
        }),
{
    let ghost n: int = tracer.spans().len() as int;
    let mut trace = begin_request(tracer, headers, now);
    let ghost t1 = *tracer;
    let child = trace.enter(tracer, String::from_str("greet_user"), now);
    let ghost t15 = *tracer;
    tracer.set_attribute(child, String::from_str("username"), AttrValue::Str(String::from_str(id)));
    let ghost t2 = *tracer;
    proof {
        assert forall|k: int| 0 <= k < t15.spans().len() implies {
            &&& (#[trigger] t2.spans()[k]).span_id == t15.spans()[k].span_id
            &&& t2.spans()[k].parent_span_id == t15.spans()[k].parent_span_id
            &&& t2.spans()[k].trace_id == t15.spans()[k].trace_id
        } by {
            if k != child {
                assert(t2.spans()[k] == t15.spans()[k]);
            }
        }
        lemma_wf_same_links(&trace, &t15, &t2);
    }
    let body = greeting(style, id);
    trace.exit(tracer, None, now);
    let ghost t3 = *tracer;
    proof {
        assert(t15.spans()[n as int] == t15.spans().subrange(0, n + 1 as int)[n as int]);
        assert(t2.spans()[n as int] == t15.spans()[n as int]);
        assert(t2.spans()[n + 1 as int].attributes@ =~= seq![t2.spans()[n + 1 as int].attributes@[0]]);
        assert(t3.spans()[n as int] == t2.spans()[n as int]);
        assert(trace.root() == n);
    }
    end_request(trace, tracer, 200, now);
    proof {
        assert(tracer.spans()[n + 1 as int] == t3.spans()[n + 1 as int]);
        assert(tracer.spans().subrange(0, n as int) =~= old(tracer).spans()) by {
            assert forall|k: int| 0 <= k < n implies tracer.spans()[k] == old(tracer).spans()[k] by {
                assert(t1.spans()[k] == t1.spans().subrange(0, n as int)[k]);
                assert(t15.spans()[k] == t15.spans().subrange(0, n + 1 as int)[k]);
                assert(t2.spans()[k] == t15.spans()[k]);
            }
        }
    }
    body
}

} // verus!
