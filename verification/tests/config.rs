use rtpbin2::config::{
    activation, clock_rate_from_caps, key_unit_request_kind, millis_to_nanos, nanos_to_millis,
    parse_session_id, pt_clock_rate_from_caps, query_step, total_latency, Activation, QueryStep,
    Settings, DEFAULT_LATENCY,
};
use rtpbin2::session::{KeyUnitRequestType, RtpProfile, RTCP_MIN_REPORT_INTERVAL};
use rtpbin2::sync::TimestampingMode;

#[test]
fn default_settings() {
    let settings = Settings::default();
    assert_eq!(settings.latency, 200_000_000);
    assert_eq!(settings.latency, DEFAULT_LATENCY);
    assert_eq!(settings.min_rtcp_interval, RTCP_MIN_REPORT_INTERVAL);
    assert_eq!(settings.min_rtcp_interval, 5_000_000_000);
    assert_eq!(settings.profile, RtpProfile::Avp);
    assert!(!settings.reduced_size_rtcp);
    assert_eq!(settings.timestamping_mode, TimestampingMode::NtpAligned);
}

#[test]
fn milliseconds_and_nanoseconds() {
    assert_eq!(millis_to_nanos(200), 200_000_000);
    assert_eq!(millis_to_nanos(u32::MAX), 4_294_967_295_000_000);
    assert_eq!(nanos_to_millis(200_999_999), 200);
    assert_eq!(nanos_to_millis(u64::MAX), u32::MAX);
}

#[test]
fn clock_rate_must_be_positive() {
    assert_eq!(clock_rate_from_caps(Some(90000)), Some(90000));
    assert_eq!(clock_rate_from_caps(Some(0)), None);
    assert_eq!(clock_rate_from_caps(Some(-8000)), None);
    assert_eq!(clock_rate_from_caps(None), None);
}

#[test]
fn payload_type_must_be_in_range() {
    assert_eq!(pt_clock_rate_from_caps(Some(8000), Some(0)), Some((0, 8000)));
    assert_eq!(pt_clock_rate_from_caps(Some(90000), Some(127)), Some((127, 90000)));
    assert_eq!(pt_clock_rate_from_caps(Some(90000), Some(128)), None);
    assert_eq!(pt_clock_rate_from_caps(Some(90000), Some(-1)), None);
    assert_eq!(pt_clock_rate_from_caps(Some(0), Some(96)), None);
    assert_eq!(pt_clock_rate_from_caps(None, Some(96)), None);
    assert_eq!(pt_clock_rate_from_caps(Some(90000), None), None);
}

#[test]
fn latency_adds_to_upstream_latency() {
    assert_eq!(total_latency(200_000_000, Some(30_000_000)), 230_000_000);
    assert_eq!(total_latency(200_000_000, None), 200_000_000);
    assert_eq!(total_latency(u64::MAX - 1, Some(5)), u64::MAX);
}

#[test]
fn key_unit_request_follows_negotiated_feedback() {
    assert_eq!(key_unit_request_kind(true, true, true, 3), Some(KeyUnitRequestType::Fir(3)));
    assert_eq!(key_unit_request_kind(true, true, false, 3), Some(KeyUnitRequestType::Pli));
    assert_eq!(key_unit_request_kind(false, true, true, 7), Some(KeyUnitRequestType::Fir(7)));
    assert_eq!(key_unit_request_kind(false, true, false, 7), None);
    assert_eq!(key_unit_request_kind(true, false, true, 0), Some(KeyUnitRequestType::Pli));
    assert_eq!(key_unit_request_kind(false, false, true, 0), None);
}

#[test]
fn activation_needs_push_mode_and_a_session() {
    assert_eq!(activation(true, true, true), Activation::Start);
    assert_eq!(activation(true, true, false), Activation::Stop);
    assert_eq!(activation(true, false, true), Activation::Refused);
    assert_eq!(activation(true, false, false), Activation::Nothing);
    assert_eq!(activation(false, true, true), Activation::Refused);
    assert_eq!(activation(false, false, false), Activation::Refused);
}

#[test]
fn session_id_from_pad_name() {
    assert_eq!(parse_session_id(None, "rtp_send_sink_", 4), Some(4));
    assert_eq!(parse_session_id(Some("rtp_send_sink_%u"), "rtp_send_sink_", 4), Some(4));
    assert_eq!(parse_session_id(Some("rtp_send_sink_0"), "rtp_send_sink_", 4), Some(0));
    assert_eq!(parse_session_id(Some("rtp_send_sink_17"), "rtp_send_sink_", 4), Some(17));
    assert_eq!(parse_session_id(Some("rtp_send_sink_007"), "rtp_send_sink_", 4), Some(7));
    assert_eq!(parse_session_id(Some("rtp_send_sink_+3"), "rtp_send_sink_", 4), Some(3));
}

#[test]
fn pad_names_that_name_no_session() {
    assert_eq!(parse_session_id(Some("rtp_recv_sink_1"), "rtp_send_sink_", 4), None);
    assert_eq!(parse_session_id(Some("rtp_send_sink_"), "rtp_send_sink_", 4), None);
    assert_eq!(parse_session_id(Some("rtp_send_sink_+"), "rtp_send_sink_", 4), None);
    assert_eq!(parse_session_id(Some("rtp_send_sink_-1"), "rtp_send_sink_", 4), None);
    assert_eq!(parse_session_id(Some("rtp_send_sink_1x"), "rtp_send_sink_", 4), None);
    assert_eq!(parse_session_id(Some("rtp_send_sink_ 1"), "rtp_send_sink_", 4), None);
    assert_eq!(parse_session_id(Some("rtp_send_sink"), "rtp_send_sink_", 4), None);
    assert_eq!(parse_session_id(Some(""), "rtp_send_sink_", 4), None);
    assert_eq!(
        parse_session_id(Some("rtp_send_sink_99999999999999999999999"), "rtp_send_sink_", 4),
        None
    );
}

#[test]
fn largest_session_id_parses() {
    let name = format!("rtcp_send_src_{}", usize::MAX);
    assert_eq!(parse_session_id(Some(name.as_str()), "rtcp_send_src_", 0), Some(usize::MAX));
}

#[test]
fn query_goes_from_stream_to_stream_until_one_succeeds() {
    // No stream to ask: the query succeeds.
    assert_eq!(query_step(0, 0, None), QueryStep::Done(true));
    // Three streams: the first is asked first.
    assert_eq!(query_step(3, 0, None), QueryStep::Ask(0));
    // It failed: the second is asked.
    assert_eq!(query_step(3, 1, Some(false)), QueryStep::Ask(1));
    // It succeeded: the third is not asked.
    assert_eq!(query_step(3, 2, Some(true)), QueryStep::Done(true));
    // All three failed.
    assert_eq!(query_step(3, 3, Some(false)), QueryStep::Done(false));
    // A stream that could not be asked counts as one that failed.
    assert_eq!(query_step(3, 2, None), QueryStep::Ask(2));
    assert_eq!(query_step(3, 3, None), QueryStep::Done(false));
    // The last stream succeeded.
    assert_eq!(query_step(3, 3, Some(true)), QueryStep::Done(true));
}
