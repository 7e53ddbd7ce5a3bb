use proto::bridge::{channel, drain_into, primed_channel, push_all, sample_or_silence};
use proto::model_utils::Vca;
use proto::IOType;

#[test]
fn missing_sample_becomes_silence() {
    assert_eq!(sample_or_silence(Some(5i32), 0), 5);
    assert_eq!(sample_or_silence(None, 7i32), 7);
}

#[test]
fn primed_channel_starts_with_silence() {
    let (_p, mut c, dropped) = primed_channel::<f32>(8, 3, 0.0);
    assert_eq!(dropped, 0);
    let mut out = [9.0f32; 4];
    let missing = drain_into(&mut c, &mut out, -1.0);
    assert_eq!(out, [0.0, 0.0, 0.0, -1.0]);
    assert_eq!(missing, 1);
}

#[test]
fn priming_beyond_capacity_reports_the_rest() {
    let (_p, _c, dropped) = primed_channel::<i32>(2, 5, 0);
    assert_eq!(dropped, 3);
}

#[test]
fn overflow_is_reported_and_keeps_stored_samples() {
    let (mut p, mut c, _) = primed_channel::<i32>(2, 0, 0);
    assert_eq!(push_all(&mut p, &[1, 2, 3]), 1);
    let mut out = [0i32; 3];
    assert_eq!(drain_into(&mut c, &mut out, 0), 1);
    assert_eq!(out, [1, 2, 0]);
}

#[test]
fn empty_buffer_yields_silence() {
    let (_p, mut c, _) = primed_channel::<f32>(4, 0, 0.0);
    let mut out = [3.5f32; 3];
    assert_eq!(drain_into(&mut c, &mut out, 0.0), 3);
    assert_eq!(out, [0.0, 0.0, 0.0]);
}

#[test]
fn samples_pass_through_in_order() {
    let (mut p, mut c, _) = primed_channel::<i32>(16, 0, 0);
    assert_eq!(push_all(&mut p, &[4, 5, 6]), 0);
    assert_eq!(push_all(&mut p, &[7]), 0);
    let mut out = [0i32; 4];
    assert_eq!(drain_into(&mut c, &mut out, 0), 0);
    assert_eq!(out, [4, 5, 6, 7]);
}

#[test]
fn vca_declares_its_ports() {
    let v = Vca;
    assert_eq!(
        v.input_format(),
        vec![(String::from("Input"), IOType::Voltage), (String::from("Control"), IOType::Voltage)]
    );
    assert_eq!(v.output_format(), vec![(String::from("Output"), IOType::Voltage)]);
}

#[test]
fn new_channel_is_empty_and_bounded() {
    let (mut p, mut c) = channel::<i32>(3);
    let mut out = [8i32; 2];
    assert_eq!(drain_into(&mut c, &mut out, -1), 2);
    assert_eq!(out, [-1, -1]);
    assert_eq!(push_all(&mut p, &[1, 2, 3, 4, 5]), 2);
    let mut out = [0i32; 4];
    assert_eq!(drain_into(&mut c, &mut out, 0), 1);
    assert_eq!(out, [1, 2, 3, 0]);
}

#[test]
fn refused_samples_leave_room_after_draining() {
    let (mut p, mut c, dropped) = primed_channel::<i32>(2, 2, 0);
    assert_eq!(dropped, 0);
    assert_eq!(push_all(&mut p, &[7]), 1);
    let mut out = [5i32; 1];
    assert_eq!(drain_into(&mut c, &mut out, 9), 0);
    assert_eq!(out, [0]);
    assert_eq!(push_all(&mut p, &[7]), 0);
    let mut out = [5i32; 3];
    assert_eq!(drain_into(&mut c, &mut out, 9), 1);
    assert_eq!(out, [0, 7, 9]);
}
