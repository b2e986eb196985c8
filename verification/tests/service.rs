//! Response bodies, request logs, backpressure, and the life of a background gateway.

use hdfs_s3_gateway::backpressure::{
    capacity, slow_down, Admission, Admit, FramePoll, PermitSlot,
};
use hdfs_s3_gateway::error::{S3Error, S3ErrorCode};
use hdfs_s3_gateway::lifecycle::{Activity, Lifecycle, StopAction};
use hdfs_s3_gateway::log_lines::{effective_level, emit_step, EmitStep, LineBuffer};
use hdfs_s3_gateway::request::{new_request_id, RequestLog};
use hdfs_s3_gateway::server::service_limits;
use hdfs_s3_gateway::stream::{BodyLimit, BodyStep, GetBodyError, Upstream};
use hdfs_s3_gateway::write_policy::write_denied;

/// Serve `chunks` under a declared length, as a response body does.
fn serve(length: usize, chunks: &[&[u8]]) -> (Vec<u8>, Option<GetBodyError>) {
    let mut body = BodyLimit::new(length);
    let mut sent = Vec::new();
    let mut next = chunks.iter();
    while !body.is_done() {
        let chunk = next.next();
        let event = match chunk {
            Some(c) => Upstream::Chunk(c.len()),
            None => Upstream::Ended,
        };
        match body.step(event) {
            BodyStep::Send(n) => sent.extend_from_slice(&chunk.unwrap()[..n]),
            BodyStep::Fail(e) => return (sent, Some(e)),
        }
    }
    (sent, None)
}

#[test]
fn the_last_chunk_is_cut_to_the_window() {
    assert_eq!(serve(5, &[b"abc", b"defg"]), (b"abcde".to_vec(), None));
    assert_eq!(serve(3, &[b"abc", b"defg"]), (b"abc".to_vec(), None));
    assert_eq!(serve(0, &[b"abc"]), (Vec::new(), None));
    assert_eq!(serve(2, &[b"", b"ab"]), (b"ab".to_vec(), None));
}

#[test]
fn an_early_end_fails_the_body() {
    let (sent, error) = serve(5, &[b"abc"]);
    assert_eq!(sent, b"abc");
    let error = error.unwrap();
    assert_eq!(
        error,
        GetBodyError::ShortRead {
            expected: 5,
            got: 3
        }
    );
    assert_eq!(
        error.message(),
        "HDFS stream ended after 3 of 5 declared bytes"
    );
}

#[test]
fn after_an_early_end_the_body_is_over() {
    let mut body = BodyLimit::new(5);
    assert!(matches!(body.step(Upstream::Ended), BodyStep::Fail(_)));
    assert!(body.is_done());
}

#[test]
fn a_failed_read_is_handed_on_and_can_go_on() {
    let mut body = BodyLimit::new(4);
    let step = body.step(Upstream::Failed("reset".into()));
    assert_eq!(
        step,
        BodyStep::Fail(GetBodyError::Upstream("reset".into()))
    );
    assert_eq!(
        GetBodyError::Upstream("reset".into()).message(),
        "HDFS read failed: reset"
    );
    assert_eq!(body.step(Upstream::Chunk(9)), BodyStep::Send(4));
    assert!(body.is_done());
}

#[test]
fn request_ids_are_exact_and_unique() {
    assert_eq!(new_request_id(0, 0), "0-0");
    assert_eq!(new_request_id(36 * 36 + 35, 255), "10z-ff");
    assert_eq!(new_request_id(1_700_000_000_000_000, 16), "gqll7vatq8-10");
    assert_ne!(new_request_id(5, 1), new_request_id(5, 2));
}

#[test]
fn a_request_log_collects() {
    let mut log = RequestLog::new("GetObject", "id-1".into());
    assert_eq!(log.op, "GetObject");
    assert_eq!((log.hdfs_path.clone(), log.bytes_served, log.ok), (None, 0, false));
    log.set_path("/data/x".into());
    log.set_bytes(12);
    log.mark_ok();
    assert_eq!(log.request_id(), "id-1");
    assert_eq!(
        (log.hdfs_path.as_deref(), log.bytes_served, log.ok),
        (Some("/data/x"), 12, true)
    );
}

#[test]
fn every_error_carries_the_request_id() {
    let log = RequestLog::new("PutObject", "id-2".into());
    let e = log.attach(S3Error::new(S3ErrorCode::NoSuchKey));
    assert_eq!(e.request_id, Some("id-2".into()));
    let r: Result<(), S3Error> = log.finish(Err(write_denied()));
    let e = r.unwrap_err();
    assert_eq!(e.request_id, Some("id-2".into()));
    assert_eq!(e.code(), S3ErrorCode::AccessDenied);
    assert_eq!(log.finish(Ok(3)), Ok(3));
}

#[test]
fn writes_are_denied_with_a_reason() {
    let e = write_denied();
    assert_eq!(e.code(), S3ErrorCode::AccessDenied);
    assert_eq!(
        e.message(),
        Some("this gateway is read-only; write operations are not supported")
    );
}

#[test]
fn excess_requests_are_told_to_slow_down() {
    assert_eq!(capacity(0), 1);
    assert_eq!(capacity(1), 1);
    assert_eq!(capacity(2048), 2048);
    let e = slow_down();
    assert_eq!(e.code(), S3ErrorCode::SlowDown);
    assert_eq!(
        e.message(),
        Some("too many requests in flight; please retry later")
    );
}

#[test]
fn a_slot_is_held_to_the_end_of_the_body() {
    let mut service = Admission::new(1);
    assert_eq!(service.arrive(), Admit::Handle);
    let mut slot = PermitSlot::new();
    slot.polled(&mut service, FramePoll::Frame);
    slot.polled(&mut service, FramePoll::Pending);
    assert_eq!(service.arrive(), Admit::SlowDown);
    slot.polled(&mut service, FramePoll::End);
    assert_eq!(service.arrive(), Admit::Handle);
    // The first request has given its slot back already; dropping its body frees no other.
    slot.release(&mut service);
    assert_eq!(service.arrive(), Admit::SlowDown);
}

#[test]
fn a_dropped_body_gives_its_slot_back() {
    let mut service = Admission::new(0);
    assert_eq!(service.arrive(), Admit::Handle);
    let mut slot = PermitSlot::new();
    assert_eq!(service.arrive(), Admit::SlowDown);
    slot.release(&mut service);
    assert_eq!(service.arrive(), Admit::Handle);
}

#[test]
fn at_most_the_cap_is_in_flight() {
    let mut service = Admission::new(3);
    let answers: Vec<Admit> = (0..5).map(|_| service.arrive()).collect();
    assert_eq!(
        answers,
        vec![
            Admit::Handle,
            Admit::Handle,
            Admit::Handle,
            Admit::SlowDown,
            Admit::SlowDown
        ]
    );
}

#[test]
fn limits_of_the_service() {
    let l = service_limits();
    assert_eq!(l.xml_max_body_size, 20 * 1024 * 1024);
    assert_eq!(l.post_object_max_file_size, 5 * 1024 * 1024 * 1024);
    assert_eq!(l.form_max_field_size, 1024 * 1024);
    assert_eq!(l.form_max_fields_size, 20 * 1024 * 1024);
    assert_eq!(l.form_max_parts, 1000);
    assert_eq!(l.drain_seconds, 10);
}

#[test]
fn lines_come_out_whole() {
    let mut b = LineBuffer::new();
    assert!(b.push("ab").is_empty());
    assert_eq!(b.push("c\r\n\n\r\nde\nf"), vec!["abc", "de"]);
    assert_eq!(b.push("g\n"), vec!["fg"]);
    assert_eq!(b.push("tail\r"), Vec::<String>::new());
    assert_eq!(b.finish(), Some("tail".into()));
    assert_eq!(LineBuffer::new().finish(), None);
}

#[test]
fn lines_do_not_depend_on_the_chunks() {
    let text = "one\ntwo\r\n\nthree\nfo";
    let mut whole = LineBuffer::new();
    let expected = whole.push(text);
    let mut bytewise = LineBuffer::new();
    let mut lines = Vec::new();
    for i in 0..text.len() {
        lines.extend(bytewise.push(&text[i..i + 1]));
    }
    assert_eq!(lines, expected);
    assert_eq!(bytewise.finish(), whole.finish());
}

#[test]
fn silent_unless_asked() {
    assert_eq!(effective_level(None, false), None);
    assert_eq!(effective_level(None, true), Some("info".into()));
    assert_eq!(
        effective_level(Some("debug".into()), false),
        Some("debug".into())
    );
}

#[test]
fn a_line_is_tried_fifty_times() {
    assert_eq!(emit_step(1, true), EmitStep::Done);
    assert_eq!(emit_step(50, true), EmitStep::Done);
    assert_eq!(emit_step(1, false), EmitStep::WaitMillis(1));
    assert_eq!(emit_step(49, false), EmitStep::WaitMillis(1));
    assert_eq!(emit_step(50, false), EmitStep::DropAfterMillis(1));
    assert_eq!(emit_step(51, false), EmitStep::DropAfterMillis(1));
}

#[test]
fn starting_and_stopping() {
    let mut g = Lifecycle::new();
    assert_eq!(g.activity(false), Activity::Idle);
    assert!(g.check_start().is_ok());
    assert_eq!(
        g.started(Some(Ok("127.0.0.1:9".into()))),
        Ok("127.0.0.1:9".into())
    );
    assert!(g.is_running(false));
    assert!(!g.is_running(true));
    assert_eq!(g.check_start(), Err("gateway is already running".into()));
    assert_eq!(g.stop(false), StopAction::SignalAndJoin);
    assert!(!g.is_running(false));
    assert!(g.check_start().is_ok());
}

#[test]
fn a_failed_start_leaves_nothing_running() {
    let mut g = Lifecycle::new();
    assert_eq!(g.started(Some(Err("no".into()))), Err("no".into()));
    assert_eq!(
        g.started(None),
        Err("gateway thread terminated before binding (likely a panic)".into())
    );
    assert_eq!(g.activity(false), Activity::Idle);
    assert!(g.check_start().is_ok());
}

#[test]
fn an_idle_stop_does_nothing() {
    let mut g = Lifecycle::new();
    assert_eq!(g.stop(false), StopAction::Nothing);
    assert_eq!(g.activity(false), Activity::Idle);
    assert!(g.started(Some(Ok("a".into()))).is_ok());
    assert!(g.is_running(false));
    assert_eq!(g.stop(false), StopAction::SignalAndJoin);
    assert_eq!(g.stop(false), StopAction::Nothing);
}

#[test]
fn a_foreground_run_is_signalled() {
    let mut g = Lifecycle::new();
    assert!(g.enter_foreground());
    assert_eq!(g.activity(false), Activity::Foreground);
    assert!(!g.is_running(false));
    assert_eq!(g.stop(false), StopAction::Signal);
    g.leave_foreground();
    assert_eq!(g.stop(false), StopAction::Nothing);
}

#[test]
fn a_thread_that_ended_by_itself_is_reported_once() {
    let mut g = Lifecycle::new();
    assert!(g.started(Some(Ok("a".into()))).is_ok());
    assert_eq!(g.activity(true), Activity::Ended);
    assert_eq!(
        g.check_start(),
        Err("gateway is already running".into())
    );
    assert_eq!(
        g.stop(true),
        StopAction::Report(
            "gateway background thread had already terminated (likely a panic)".into()
        )
    );
    assert_eq!(g.stop(true), StopAction::Nothing);
}
