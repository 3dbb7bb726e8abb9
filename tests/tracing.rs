use rust_hello::context::{decode_traceparent, encode_traceparent, extract, inject, TraceContext};
use rust_hello::greeting::{greet_user, greeting, GreetingStyle};
use rust_hello::request::{begin_request, end_request, handle_person};
use rust_hello::tracer::{flush_status, AttrValue, FlushStatus, SpanStatus, Tracer};

const HEADER: &str = "00-4bf92f3577b34da6a3ce929d0e0e4736-00f067aa0ba902b7-01";

fn headers(pairs: &[(&str, &str)]) -> Vec<(String, String)> {
    pairs.iter().map(|(k, v)| (k.to_string(), v.to_string())).collect()
}

#[test]
fn greet_user_says_hello() {
    assert_eq!(greet_user("42"), "Hello 42");
    assert_eq!(greet_user(""), "Hello ");
    assert_eq!(greeting(GreetingStyle::Plain, "bob"), "Hello bob");
    assert_eq!(greeting(GreetingStyle::Labelled, "42"), "Hello id = 42");
}

#[test]
fn decode_valid_header() {
    let ctx = decode_traceparent(HEADER).unwrap();
    assert_eq!(ctx.trace_id, 0x4bf92f3577b34da6a3ce929d0e0e4736);
    assert_eq!(ctx.span_id, 0x00f067aa0ba902b7);
    assert!(ctx.sampled);
    let unsampled = decode_traceparent("00-4bf92f3577b34da6a3ce929d0e0e4736-00f067aa0ba902b7-00").unwrap();
    assert!(!unsampled.sampled);
}

#[test]
fn decode_rejects_malformed_headers() {
    assert_eq!(decode_traceparent(""), None);
    assert_eq!(decode_traceparent("garbage"), None);
    assert_eq!(decode_traceparent("00-4BF92F3577B34DA6A3CE929D0E0E4736-00f067aa0ba902b7-01"), None);
    assert_eq!(decode_traceparent("00-00000000000000000000000000000000-00f067aa0ba902b7-01"), None);
    assert_eq!(decode_traceparent("00-4bf92f3577b34da6a3ce929d0e0e4736-0000000000000000-01"), None);
    assert_eq!(decode_traceparent("ff-4bf92f3577b34da6a3ce929d0e0e4736-00f067aa0ba902b7-01"), None);
    assert_eq!(decode_traceparent("00-4bf92f3577b34da6a3ce929d0e0e4736-00f067aa0ba902b7-01-extra"), None);
    assert_eq!(decode_traceparent("00-4bf92f3577b34da6a3ce929d0e0e4736-00f067aa0ba902b7-0g"), None);
    assert_eq!(decode_traceparent("00_4bf92f3577b34da6a3ce929d0e0e4736-00f067aa0ba902b7-01"), None);
}

#[test]
fn decode_later_version_tolerates_extra_fields() {
    let ctx = decode_traceparent("01-4bf92f3577b34da6a3ce929d0e0e4736-00f067aa0ba902b7-01-future").unwrap();
    assert_eq!(ctx.trace_id, 0x4bf92f3577b34da6a3ce929d0e0e4736);
    assert_eq!(decode_traceparent("01-4bf92f3577b34da6a3ce929d0e0e4736-00f067aa0ba902b7-01x"), None);
}

#[test]
fn encode_and_inject() {
    let ctx = TraceContext { trace_id: 0x4bf92f3577b34da6a3ce929d0e0e4736, span_id: 0x00f067aa0ba902b7, sampled: true };
    assert_eq!(encode_traceparent(&ctx), HEADER);
    let small = TraceContext { trace_id: 1, span_id: 2, sampled: false };
    assert_eq!(encode_traceparent(&small), "00-00000000000000000000000000000001-0000000000000002-00");
    let h = inject(&ctx);
    assert_eq!(h.len(), 1);
    assert_eq!(h[0].0, "traceparent");
    assert_eq!(h[0].1, HEADER);
    assert_eq!(decode_traceparent(&h[0].1), Some(ctx));
}

#[test]
fn extract_finds_header_among_others() {
    let hs = headers(&[("accept", "*/*"), ("traceparent", HEADER), ("user-agent", "x")]);
    let ctx = extract(&hs).unwrap();
    assert_eq!(ctx.span_id, 0x00f067aa0ba902b7);
    assert_eq!(extract(&headers(&[("accept", "*/*")])), None);
    assert_eq!(extract(&headers(&[("traceparent", "bad")])), None);
}

#[test]
fn scenario_request_without_header() {
    let mut tracer = Tracer::new("jug-rust-service".to_string());
    let body = handle_person(&mut tracer, &Vec::new(), "42", GreetingStyle::Plain, 7);
    assert_eq!(body, "Hello 42");
    assert_eq!(tracer.span_count(), 2);
    let root = tracer.span(0);
    let child = tracer.span(1);
    assert_eq!(root.name, "request");
    assert_eq!(root.parent_span_id, None);
    assert_ne!(root.trace_id, 0);
    assert_ne!(root.span_id, 0);
    assert_eq!(child.name, "greet_user");
    assert_eq!(child.parent_span_id, Some(root.span_id));
    assert_eq!(child.trace_id, root.trace_id);
    assert_eq!(root.status, SpanStatus::Success);
    assert_eq!(child.end_time, Some(7));
    assert!(matches!(root.attributes[0].1, AttrValue::Int(200)));
    assert_eq!(tracer.take_pending(), vec![1, 0]);
    assert_eq!(tracer.service_name(), "jug-rust-service");
}

#[test]
fn scenario_request_with_header() {
    let mut tracer = Tracer::new("svc".to_string());
    let hs = headers(&[("traceparent", HEADER)]);
    let body = handle_person(&mut tracer, &hs, "42", GreetingStyle::Labelled, 1);
    assert_eq!(body, "Hello id = 42");
    let root = tracer.span(0);
    assert_eq!(format!("{:032x}", root.trace_id), "4bf92f3577b34da6a3ce929d0e0e4736");
    assert_eq!(root.parent_span_id, Some(0x00f067aa0ba902b7));
    assert_eq!(tracer.span(1).trace_id, root.trace_id);
}

#[test]
fn malformed_header_starts_fresh_trace() {
    let mut tracer = Tracer::new("svc".to_string());
    let hs = headers(&[("traceparent", "00-zz-00f067aa0ba902b7-01")]);
    let t = begin_request(&mut tracer, &hs, 0);
    assert_eq!(tracer.span(0).parent_span_id, None);
    assert_ne!(t.trace_id(), 0);
}

#[test]
fn finish_twice_exports_once() {
    let mut tracer = Tracer::new("svc".to_string());
    let h = tracer.start_span("op".to_string(), 5, None, 1);
    assert!(tracer.finish(h, SpanStatus::Success, 2));
    assert!(!tracer.finish(h, SpanStatus::Error, 3));
    assert_eq!(tracer.span(h).end_time, Some(2));
    assert_eq!(tracer.span(h).status, SpanStatus::Success);
    assert_eq!(tracer.take_pending(), vec![h]);
    assert!(!tracer.finish(h, SpanStatus::Success, 4));
    assert_eq!(tracer.take_pending(), Vec::<usize>::new());
}

#[test]
fn nested_calls_form_a_path() {
    let mut tracer = Tracer::new("svc".to_string());
    let mut t = begin_request(&mut tracer, &Vec::new(), 0);
    let a = t.enter(&mut tracer, "outer".to_string(), 1);
    let b = t.enter(&mut tracer, "inner".to_string(), 2);
    assert_eq!(t.depth(), 3);
    assert_eq!(t.current_span(), b);
    assert_eq!(tracer.span(a).parent_span_id, Some(tracer.span(0).span_id));
    assert_eq!(tracer.span(b).parent_span_id, Some(tracer.span(a).span_id));
    t.exit(&mut tracer, Some("boom".to_string()), 3);
    assert_eq!(t.current_span(), a);
    let c = t.enter(&mut tracer, "sibling".to_string(), 4);
    assert_eq!(tracer.span(c).parent_span_id, Some(tracer.span(a).span_id));
    assert_eq!(tracer.span(b).status, SpanStatus::Error);
    match &tracer.span(b).attributes[0] {
        (k, AttrValue::Str(v)) => {
            assert_eq!(k, "error.description");
            assert_eq!(v, "boom");
        }
        _ => panic!("expected a description"),
    }
    t.exit(&mut tracer, None, 5);
    t.exit(&mut tracer, None, 6);
    assert_eq!(t.root_span(), 0);
    end_request(t, &mut tracer, 500, 7);
    assert_eq!(tracer.span(0).status, SpanStatus::Error);
    assert_eq!(tracer.take_pending(), vec![b, c, a, 0]);
}

#[test]
fn shutdown_runs_once() {
    let mut tracer = Tracer::new("svc".to_string());
    for i in 0..3u64 {
        let h = tracer.start_span("op".to_string(), 9, None, i);
        tracer.finish(h, SpanStatus::Success, i + 1);
    }
    let batch = tracer.shutdown().unwrap();
    assert_eq!(batch.len(), 3);
    assert_eq!(tracer.shutdown(), None);
    assert_eq!(flush_status(3, 3), FlushStatus::Complete);
    assert_eq!(flush_status(3, 1), FlushStatus::Partial { undelivered: 2 });
    assert_eq!(flush_status(0, 0), FlushStatus::Complete);
}

#[test]
fn span_ids_are_unique() {
    let mut tracer = Tracer::new("svc".to_string());
    let mut ids = Vec::new();
    for i in 0..50u64 {
        let h = tracer.start_span("op".to_string(), 3, Some(1), i);
        let id = tracer.span(h).span_id;
        assert_ne!(id, 0);
        assert_ne!(id, 1);
        assert!(!ids.contains(&id));
        ids.push(id);
    }
}

#[test]
fn continued_trace_gets_new_root_id() {
    let mut tracer = Tracer::new("svc".to_string());
    let hs = headers(&[("traceparent", HEADER)]);
    let _ = handle_person(&mut tracer, &hs, "7", GreetingStyle::Plain, 3);
    let root = tracer.span(0);
    assert_ne!(root.span_id, 0x00f067aa0ba902b7);
    assert_eq!(root.start_time, 3);
    assert_eq!(root.end_time, Some(3));
    let child = tracer.span(1);
    assert_ne!(child.span_id, root.span_id);
    match &child.attributes[0] {
        (k, AttrValue::Str(v)) => {
            assert_eq!(k, "username");
            assert_eq!(v, "7");
        }
        _ => panic!("expected the username"),
    }
    assert_eq!(root.attributes[0].0, "http.status_code");
}

#[test]
fn header_name_case_is_ignored() {
    let hs = headers(&[("TraceParent", HEADER)]);
    assert_eq!(extract(&hs).unwrap().trace_id, 0x4bf92f3577b34da6a3ce929d0e0e4736);
    assert_eq!(extract(&headers(&[("traceparents", HEADER)])), None);
}

#[test]
fn exported_spans_are_released() {
    let mut tracer = Tracer::new("svc".to_string());
    let h = tracer.start_span("op".to_string(), 4, None, 0);
    assert!(!tracer.release_exported());
    tracer.finish(h, SpanStatus::Success, 1);
    assert!(!tracer.release_exported());
    assert_eq!(tracer.take_pending(), vec![h]);
    assert!(tracer.release_exported());
    assert_eq!(tracer.span_count(), 0);
    let _ = handle_person(&mut tracer, &Vec::new(), "9", GreetingStyle::Plain, 2);
    assert_eq!(tracer.span_count(), 2);
}
