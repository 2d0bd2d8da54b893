use chud::rpc::cmd::{Cmd, CmdResp, LoadMsgReq, SubmitMsgReq};
use chud::rpc::{head_reply, loaded_reply, submitted_reply, Reply};
use chud::sys::msg::{Message, MessageData};

fn h(b: u8) -> chud::crypto::hash::Hash {
    chud::crypto::hash::Hash::new([b; 32])
}

#[test]
fn replies_match_their_request() {
    assert_eq!(submitted_reply(CmdResp::MsgSubmitted { hash: h(1), req_id: 5 }, 5), Reply::Done(h(1)));
    assert_eq!(submitted_reply(CmdResp::MsgSubmitted { hash: h(1), req_id: 6 }, 5), Reply::Pending);
    assert_eq!(
        submitted_reply(CmdResp::Error { error: String::from("no"), req_id: 5 }, 5),
        Reply::Failed(String::from("no"))
    );
    assert_eq!(submitted_reply(CmdResp::HeadLoaded { hash: h(1), req_id: 5 }, 5), Reply::Pending);
    assert_eq!(head_reply(CmdResp::HeadLoaded { hash: h(2), req_id: 1 }, 1), Reply::Done(h(2)));
    assert_eq!(head_reply(CmdResp::Error { error: String::from("x"), req_id: 2 }, 1), Reply::Pending);
    let m = Message::try_from(MessageData::new(Vec::new(), None, None, None, 0, 0)).unwrap();
    assert_eq!(loaded_reply(CmdResp::MsgLoaded { msg: m.clone(), req_id: 3 }, 3), Reply::Done(m.clone()));
    assert_eq!(loaded_reply(CmdResp::MsgLoaded { msg: m, req_id: 3 }, 4), Reply::Pending);
}

#[test]
fn submission_requests_complete_into_message_data() {
    let req = SubmitMsgReq::new(vec![4, 5], Some(h(3)), Some(String::from("xyz")), None, 9, 10);
    assert_eq!(req.data(), &[4u8, 5][..]);
    assert_eq!(req.height(), 9);
    let data = req.into_message_data();
    assert_eq!(data.data(), &[4u8, 5][..]);
    assert_eq!(data.prev(), Some(&h(3)));
    assert_eq!(data.captcha_ans(), Some("xyz"));
    assert_eq!(data.captcha_src(), None);
    assert_eq!(data.height(), 9);
    assert_eq!(data.timestamp(), 10);
}

#[test]
fn only_terminate_stops_the_client() {
    assert!(Cmd::Terminate.stops_client());
    assert!(!Cmd::GetHead { req_id: 1 }.stops_client());
    assert!(!Cmd::LoadMsg { req: LoadMsgReq { hash: h(1) }, req_id: 1 }.stops_client());
}
