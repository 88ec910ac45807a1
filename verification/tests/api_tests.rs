use std::sync::mpsc;

use rrt_sim::api::{cmd_header, framed, message_args, payload, req_header, Cmd, CmdReq, CmdType, Req, NUM_KINDS};

#[test]
fn kind_numbers() {
    assert_eq!(CmdType::Step.usize(), 0);
    assert_eq!(CmdType::DrawTree.usize(), 5);
    assert_eq!(CmdType::PixbufReq.usize(), 25);
    assert_eq!(CmdType::Undef.usize(), 27);
    assert_eq!(NUM_KINDS, 28);
}

#[test]
fn kinds_round_trip_through_numbers() {
    for n in 0..NUM_KINDS as i64 {
        let k = CmdType::from_i64(n).expect("every number below the count names a kind");
        assert_eq!(k.usize() as i64, n);
    }
    assert_eq!(CmdType::from_i64(28), None);
    assert_eq!(CmdType::from_i64(-1), None);
    assert_eq!(CmdType::from_i64(17), Some(CmdType::PosReq));
}

#[test]
fn commands_keep_their_argument_in_the_queue() {
    let e: CmdReq<f32, mpsc::Sender<Vec<f32>>> = CmdReq::from_cmd(Cmd::Rot(3.5));
    assert!(matches!(e, CmdReq::CmdRot(x) if x == 3.5));
    let e: CmdReq<f32, mpsc::Sender<Vec<f32>>> = CmdReq::from_cmd(Cmd::DrawTree(vec![1, 2]));
    assert!(matches!(e, CmdReq::CmdDrawTree(ref v) if *v == vec![1, 2]));
    let e: CmdReq<f32, mpsc::Sender<Vec<f32>>> = CmdReq::from_cmd(Cmd::Ping);
    assert!(matches!(e, CmdReq::CmdPing));
}

#[test]
fn requests_carry_their_answer_channel() {
    let (tx, rx) = mpsc::channel::<Vec<f32>>();
    let e: CmdReq<f32, mpsc::Sender<Vec<f32>>> = CmdReq::from_req(Req::Coverage, tx);
    match e {
        CmdReq::ReqCoverage(s) => s.send(vec![1.0]).unwrap(),
        _ => panic!("wrong queue entry"),
    }
    assert_eq!(rx.recv().unwrap(), vec![1.0]);
}

#[test]
fn command_headers() {
    assert_eq!(cmd_header(&Cmd::Rot(2.0f32)), Some((CmdType::Rot, Some(2.0))));
    assert_eq!(cmd_header(&Cmd::<f32>::Step), Some((CmdType::Step, None)));
    assert_eq!(cmd_header(&Cmd::<f32>::Ping), Some((CmdType::Undef, None)));
    assert_eq!(cmd_header(&Cmd::<f32>::DrawTree(vec![3])), None);
    assert_eq!(cmd_header(&Cmd::Stats(5.0f32)), Some((CmdType::Stats, Some(5.0))));
}

#[test]
fn request_headers() {
    assert_eq!(req_header(Req::PixbufFull), (CmdType::PixbufReq, 1));
    assert_eq!(req_header(Req::Pixbuf), (CmdType::PixbufReq, 0));
    assert_eq!(req_header(Req::GridSize), (CmdType::FreeGridSizeReq, 0));
    assert_eq!(req_header(Req::Scale), (CmdType::ScaleReq, 0));
}

#[test]
fn answers_are_framed_by_their_length() {
    assert_eq!(payload(&vec![2.0f32, 5.0, 6.0, 9.0], 2), vec![5.0, 6.0]);
    assert_eq!(payload(&vec![0.0f32], 0), Vec::<f32>::new());
    assert_eq!(framed(3.0f32, &vec![1.0, 2.0, 3.0]), vec![3.0, 1.0, 2.0, 3.0]);
    let f = framed(2u32, &vec![7, 8]);
    assert_eq!(payload(&f, f[0] as usize), vec![7, 8]);
}

#[test]
fn message_arguments() {
    // a tree drawing: kind, count, then the pixel indices
    let msg = vec![5.0f32, 3.0, 10.0, 11.0, 12.0];
    assert_eq!(message_args(&msg, msg[1] as usize), vec![10.0, 11.0]);
    assert_eq!(message_args(&msg, 1), Vec::<f32>::new());
}
