use vstd::prelude::*;

verus! {

/// How an operation ended.
#[derive(Clone, Copy, Debug, PartialEq, Eq, Structural)]
pub enum SpanStatus {
    /// Still open.
    Unset,
    Success,
    Error,
}

/// A scalar attribute value.
#[derive(Debug)]
pub enum AttrValue {
    Str(String),
    Int(i64),
}

/// A timed unit of work, one node of a trace.
pub struct Span {
    pub span_id: u64,
    pub parent_span_id: Option<u64>,
    pub trace_id: u128,
    pub name: String,
    pub start_time: u64,
    pub end_time: Option<u64>,
    pub attributes: Vec<(String, AttrValue)>,
    pub status: SpanStatus,
}

/// Creates spans, holds them, and queues each finished span for export once.
pub struct Tracer {
    service_name: String,
    spans: Vec<Span>,
    emitted: Vec<usize>,
    exported: usize,
    shut_down: bool,
}

/// Relies on opentelemetry_sdk's `RandomIdGenerator::new_span_id`, a random span id;
/// nothing is promised of its value.
#[verifier::external_body]
fn random_span_id() -> (r: u64) {
    let g = opentelemetry::sdk::trace::RandomIdGenerator::default();
    u64::from_be_bytes(opentelemetry::sdk::trace::IdGenerator::new_span_id(&g).to_bytes())
}

/// Whether some span already carries `id`.
pub open spec fn id_in_use(spans: Seq<Span>, id: u64) -> bool {
    exists|k: int| 0 <= k < spans.len() && #[trigger] spans[k].span_id == id
}

/// A span id is fresh when it is valid (non-zero), names no existing span and
/// is not the id of the span's remote parent.
pub open spec fn fresh_id(spans: Seq<Span>, parent: Option<u64>, id: u64) -> bool {
    &&& id != 0
    &&& !id_in_use(spans, id)
    &&& parent != Some(id)
}

/// Among the `n + 2` ids `1..=n+2`, one is neither among `n` used ids nor `extra`.
proof fn lemma_free_id_exists(ids: Seq<int>, extra: int)
    ensures
        exists|c: int| 1 <= c <= ids.len() + 2 && c != extra && !ids.contains(c),
{
    if forall|c: int| 1 <= c <= ids.len() + 2 ==> c == extra || ids.contains(c) {
        let used = ids.to_set().insert(extra);
        let range = vstd::set_lib::set_int_range(1, ids.len() + 3 as int);
        ids.lemma_cardinality_of_set();
        vstd::seq_lib::seq_to_set_is_finite(ids);
        vstd::set::axiom_set_insert_len(ids.to_set(), extra);
        vstd::set_lib::lemma_int_range(1, ids.len() + 3 as int);
        assert forall|c: int| range.contains(c) implies used.contains(c) by {
            if c != extra {
                assert(ids.contains(c));
                assert(ids.to_set().contains(c));
            }
        }
        vstd::set_lib::lemma_len_subset(range, used);
    }
}

impl Tracer {
    /// The spans created so far, indexed by their handles.
    pub closed spec fn spans(&self) -> Seq<Span> {
        self.spans@
    }

    /// Handles of the spans handed to export, in the order they finished.
    pub closed spec fn emitted(&self) -> Seq<usize> {
        self.emitted@
    }

    /// Handles of finished spans not yet taken by an export.
    pub closed spec fn pending(&self) -> Seq<usize> {
        self.emitted@.subrange(self.exported as int, self.emitted@.len() as int)
    }

    /// The service name attached as a resource attribute to every span.
    pub closed spec fn service(&self) -> Seq<char> {
        self.service_name@
    }

    pub closed spec fn is_shut_down(&self) -> bool {
        self.shut_down
    }

    /// A span is emitted exactly when it is finished, and at most once.
    pub closed spec fn wf(&self) -> bool {
        &&& self.exported <= self.emitted@.len()
        &&& self.spans@.len() <= usize::MAX
        &&& self.emitted@.no_duplicates()
        &&& forall|i: int| 0 <= i < self.emitted@.len() ==> #[trigger] self.emitted@[i] < self.spans@.len()
        &&& forall|h: int|
            0 <= h < self.spans@.len() ==> ((#[trigger] self.spans@[h].end_time) is Some <==> self.emitted@.contains(h as usize))
    }

    /// A tracer for the named service, with no spans yet.
    pub fn new(service_name: String) -> (r: Tracer)
        ensures
            r.wf(),
            r.service() == service_name@,
            r.spans().len() == 0,
            r.emitted().len() == 0,
            r.pending().len() == 0,
            !r.is_shut_down(),
    {
        Tracer { service_name, spans: Vec::new(), emitted: Vec::new(), exported: 0, shut_down: false }
    }

    pub fn service_name(&self) -> (r: &str)
        ensures
            r@ == self.service(),
    {
        self.service_name.as_str()
    }

    pub fn span_count(&self) -> (r: usize)
        ensures
            r == self.spans().len(),
    {
        self.spans.len()
    }

    pub fn span(&self, h: usize) -> (r: &Span)
        requires
            h < self.spans().len(),
        ensures
            *r == self.spans()[h as int],
    {
        &self.spans[h]
    }

    /// Whether some span already carries `id`.
    fn id_used(&self, id: u64) -> (r: bool)
        ensures
            r == id_in_use(self.spans@, id),
    {
        let mut i: usize = 0;
        while i < self.spans.len()
            invariant
                0 <= i <= self.spans@.len(),
                forall|k: int| 0 <= k < i ==> self.spans@[k].span_id != id,
            decreases self.spans.len() - i,
        {
            if self.spans[i].span_id == id {
                return true;
            }
            i = i + 1;
        }
        false
    }

    /// A fresh span id: a random one where it is fresh, else the first fresh
    /// id counting up from 1.
    fn unused_span_id(&self, parent: Option<u64>) -> (r: u64)
        requires
            self.spans@.len() < usize::MAX - 2,
        ensures
            fresh_id(self.spans@, parent, r),
    {
        let drawn = random_span_id();
        if drawn != 0 && parent != Some(drawn) && !self.id_used(drawn) {
            return drawn;
        }
        let n = self.spans.len() as u64;
        let ghost ids = self.spans@.map_values(|sp: Span| sp.span_id as int);
        let mut c: u64 = 1;
        while c <= n + 2
            invariant
                1 <= c <= n + 3,
                n == self.spans@.len(),
                n + 3 <= u64::MAX,
                ids == self.spans@.map_values(|sp: Span| sp.span_id as int),
                forall|d: int| 1 <= d < c ==> (parent == Some(d as u64) || #[trigger] ids.contains(d)),
            decreases n + 3 - c,
        {
            if parent != Some(c) && !self.id_used(c) {
                return c;
            }
            proof {
                if parent != Some(c) {
                    let k = choose|k: int| 0 <= k < self.spans@.len() && #[trigger] self.spans@[k].span_id == c;
                    assert(ids[k] == c as int);
                }
            }
            c = c + 1;
        }
        proof {
            let extra: int = match parent {
                Some(p) => p as int,
                None => 0,
            };
            lemma_free_id_exists(ids, extra);
            let d = choose|d: int| 1 <= d <= ids.len() + 2 && d != extra && !ids.contains(d);
            assert(parent == Some(d as u64) || ids.contains(d));
        }
        0
    }

    /// Opens a span with a fresh id; its handle is returned.
    pub fn start_span(&mut self, name: String, trace_id: u128, parent: Option<u64>, now: u64) -> (h: usize)
        requires
            old(self).wf(),
            old(self).spans().len() < usize::MAX - 2,
        ensures
            final(self).wf(),
            h == old(self).spans().len(),
            final(self).spans().len() == h + 1,
            final(self).spans().subrange(0, h as int) == old(self).spans(),
            fresh_id(old(self).spans(), parent, final(self).spans()[h as int].span_id),
            final(self).spans()[h as int].parent_span_id == parent,
            final(self).spans()[h as int].trace_id == trace_id,
            final(self).spans()[h as int].name@ == name@,
            final(self).spans()[h as int].start_time == now,
            final(self).spans()[h as int].end_time is None,
            final(self).spans()[h as int].attributes@.len() == 0,
            final(self).spans()[h as int].status == SpanStatus::Unset,
            final(self).emitted() == old(self).emitted(),
            final(self).pending() == old(self).pending(),
            final(self).service() == old(self).service(),
            final(self).is_shut_down() == old(self).is_shut_down(),
    {
        let span_id = self.unused_span_id(parent);
        let h = self.spans.len();
        self.spans.push(
            Span {
                span_id,
                parent_span_id: parent,
                trace_id,
                name,
                start_time: now,
                end_time: None,
                attributes: Vec::new(),
                status: SpanStatus::Unset,
            },
        );
        proof {
            assert(self.spans@.subrange(0, h as int) =~= old(self).spans@);
            assert forall|k: int|
                0 <= k < self.spans@.len() implies ((#[trigger] self.spans@[k].end_time) is Some <==> self.emitted@.contains(k as usize)) by {
                if k == h {
                    assert(!self.emitted@.contains(h)) by {
                        if self.emitted@.contains(h) {
                            let j = choose|j: int| 0 <= j < self.emitted@.len() && self.emitted@[j] == h;
                            assert(self.emitted@[j] < old(self).spans@.len());
                        }
                    }
                } else {
                    assert(self.spans@[k] == old(self).spans@[k]);
                }
            }
        }
        h
    }

    /// Records an attribute on an open span; a finished span stays as it is.
    pub fn set_attribute(&mut self, h: usize, key: String, value: AttrValue)
        requires
            old(self).wf(),
            h < old(self).spans().len(),
        ensures
            final(self).wf(),
            final(self).emitted() == old(self).emitted(),
            final(self).pending() == old(self).pending(),
            final(self).service() == old(self).service(),
            final(self).is_shut_down() == old(self).is_shut_down(),
            final(self).spans().len() == old(self).spans().len(),
            forall|k: int| 0 <= k < old(self).spans().len() && k != h ==> #[trigger] final(self).spans()[k] == old(self).spans()[k],
            old(self).spans()[h as int].end_time is Some ==> final(self).spans()[h as int] == old(self).spans()[h as int],
            old(self).spans()[h as int].end_time is None ==> ({
                let (o, n) = (old(self).spans()[h as int], final(self).spans()[h as int]);
                &&& n.attributes@ == o.attributes@.push((key, value))
                &&& n.span_id == o.span_id && n.parent_span_id == o.parent_span_id
                &&& n.trace_id == o.trace_id && n.name == o.name
                &&& n.start_time == o.start_time && n.end_time == o.end_time
                &&& n.status == o.status
            }),
    {
        if self.spans[h].end_time.is_none() {
            self.spans[h].attributes.push((key, value));
            proof {
                assert forall|k: int|
                    0 <= k < self.spans@.len() implies ((#[trigger] self.spans@[k].end_time) is Some <==> self.emitted@.contains(k as usize)) by {
                    if k != h {
                        assert(self.spans@[k] == old(self).spans@[k]);
                    }
                }
            }
        }
    }

    /// Closes an open span with the given status and hands it to export. A span
    /// that is already finished is left as it is and is not handed over again.
    /// Returns whether the span was handed over.
    pub fn finish(&mut self, h: usize, status: SpanStatus, now: u64) -> (r: bool)
        requires
            old(self).wf(),
            h < old(self).spans().len(),
        ensures
            final(self).wf(),
            r == (old(self).spans()[h as int].end_time is None),
            !r ==> *final(self) == *old(self),
            r ==> final(self).emitted() == old(self).emitted().push(h),
            r ==> final(self).pending() == old(self).pending().push(h),
            final(self).spans().len() == old(self).spans().len(),
            forall|k: int| 0 <= k < old(self).spans().len() && k != h ==> #[trigger] final(self).spans()[k] == old(self).spans()[k],
            r ==> ({
                let (o, n) = (old(self).spans()[h as int], final(self).spans()[h as int]);
                &&& n.end_time == Some(now) && n.status == status
                &&& n.span_id == o.span_id && n.parent_span_id == o.parent_span_id
                &&& n.trace_id == o.trace_id && n.name == o.name
                &&& n.start_time == o.start_time && n.attributes == o.attributes
            }),
            final(self).spans()[h as int].end_time is Some,
            final(self).service() == old(self).service(),
            final(self).is_shut_down() == old(self).is_shut_down(),
            final(self).emitted().no_duplicates(),
    {
        if self.spans[h].end_time.is_some() {
            return false;
        }
        self.spans[h].end_time = Some(now);
        self.spans[h].status = status;
        proof {
            assert(!old(self).emitted@.contains(h));
        }
        self.emitted.push(h);
        proof {
            assert(self.emitted@ == old(self).emitted@.push(h));
            assert(self.emitted@.subrange(self.exported as int, self.emitted@.len() as int)
                =~= old(self).pending().push(h));
            assert forall|i: int| 0 <= i < self.emitted@.len() implies #[trigger] self.emitted@[i] < self.spans@.len() by {
                if i < old(self).emitted@.len() {
                    assert(self.emitted@[i] == old(self).emitted@[i]);
                }
            }
            assert forall|k: int|
                0 <= k < self.spans@.len() implies ((#[trigger] self.spans@[k].end_time) is Some <==> self.emitted@.contains(k as usize)) by {
                if k != h {
                    assert(self.spans@[k] == old(self).spans@[k]);
                    assert((old(self).spans@[k].end_time is Some) <==> old(self).emitted@.contains(k as usize));
                    if old(self).emitted@.contains(k as usize) {
                        let j = choose|j: int| 0 <= j < old(self).emitted@.len() && old(self).emitted@[j] == k as usize;
                        assert(self.emitted@[j] == k as usize);
                    }
                    if self.emitted@.contains(k as usize) {
                        let j = choose|j: int| 0 <= j < self.emitted@.len() && self.emitted@[j] == k as usize;
                        if j < old(self).emitted@.len() {
                            assert(old(self).emitted@[j] == self.emitted@[j]);
                            assert(old(self).emitted@.contains(k as usize));
                        } else {
                            assert(self.emitted@[j] == h);
                        }
                    }
                } else {
                    assert(self.emitted@[self.emitted@.len() - 1] == k as usize);
                }
            }
        }
        true
    }

    /// Takes the finished spans not yet exported, in the order they finished.
    pub fn take_pending(&mut self) -> (r: Vec<usize>)
        requires
            old(self).wf(),
        ensures
            final(self).wf(),
            r@ == old(self).pending(),
            final(self).pending().len() == 0,
            final(self).spans() == old(self).spans(),
            final(self).emitted() == old(self).emitted(),
            final(self).service() == old(self).service(),
            final(self).is_shut_down() == old(self).is_shut_down(),
    {
        let mut r = Vec::new();
        let mut i = self.exported;
        while i < self.emitted.len()
            invariant
                self.exported <= i <= self.emitted@.len(),
                r@ == self.emitted@.subrange(self.exported as int, i as int),
            decreases self.emitted.len() - i,
        {
            r.push(self.emitted[i]);
            assert(self.emitted@.subrange(self.exported as int, i as int + 1)
                =~= self.emitted@.subrange(self.exported as int, i as int).push(self.emitted@[i as int]));
            i = i + 1;
        }
        self.exported = self.emitted.len();
        assert(self.pending() =~= Seq::<usize>::empty());
        r
    }

    /// Drops the span records once every span has been finished and exported,
    /// so that they do not accumulate; with any span still open or awaiting
    /// export, nothing changes. Returns whether the records were dropped.
    pub fn release_exported(&mut self) -> (r: bool)
        requires
            old(self).wf(),
        ensures
            final(self).wf(),
            r == (old(self).pending().len() == 0 && old(self).emitted().len() == old(self).spans().len()),
            r ==> final(self).spans().len() == 0 && final(self).emitted().len() == 0,
            !r ==> *final(self) == *old(self),
            r ==> final(self).pending().len() == 0,
            final(self).service() == old(self).service(),
            final(self).is_shut_down() == old(self).is_shut_down(),
    {
        if self.exported == self.emitted.len() && self.emitted.len() == self.spans.len() {
            self.spans = Vec::new();
            self.emitted = Vec::new();
            self.exported = 0;
            assert(self.pending() =~= Seq::<usize>::empty());
            true
        } else {
            false
        }
    }

    /// Begins the orderly shutdown: the first call takes the spans that still
    /// await export, for a final flush; every later call gets `None` and
    /// changes nothing.
    pub fn shutdown(&mut self) -> (r: Option<Vec<usize>>)
        requires
            old(self).wf(),
        ensures
            final(self).wf(),
            final(self).is_shut_down(),
            old(self).is_shut_down() ==> r is None && *final(self) == *old(self),
            !old(self).is_shut_down() ==> r is Some && r->0@ == old(self).pending()
                && final(self).pending().len() == 0,
            final(self).spans() == old(self).spans(),
            final(self).emitted() == old(self).emitted(),
            final(self).service() == old(self).service(),
    {
        if self.shut_down {
            return None;
        }
        self.shut_down = true;
        Some(self.take_pending())
    }
}


/// Each span is handed to export at most once, and exactly the finished
/// spans have been handed over.
pub proof fn lemma_export_at_most_once(t: &Tracer)
    requires
        t.wf(),
    ensures
        t.emitted().no_duplicates(),
        forall|h: int| 0 <= h < t.spans().len() ==> ((#[trigger] t.spans()[h].end_time) is Some <==> t.emitted().contains(h as usize)),
{
}

/// What a flush achieved.
#[derive(Clone, Copy, Debug, PartialEq, Eq, Structural)]
pub enum FlushStatus {
    /// Every buffered span was delivered.
    Complete,
    /// Some spans were still undelivered when the timeout elapsed.
    Partial { undelivered: usize },
}

/// The status of a flush of `buffered` spans of which the exporter delivered
/// `delivered` before its timeout.
pub fn flush_status(buffered: usize, delivered: usize) -> (r: FlushStatus)
    ensures
        delivered >= buffered ==> r == FlushStatus::Complete,
        delivered < buffered ==> r == (FlushStatus::Partial { undelivered: (buffered - delivered) as usize }),
{
    if delivered >= buffered {
        FlushStatus::Complete
    } else {
        FlushStatus::Partial { undelivered: buffered - delivered }
    }
}

} // verus!
