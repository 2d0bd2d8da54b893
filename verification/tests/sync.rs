use chud::net::msg::{Context as MsgContext, Event as MsgEvent};
use chud::net::req::Response;
use chud::net::sync::{Context, Event};
use chud::sys::msg::{Message, MessageData};
use chud::sys::rt::Rt;

fn message(prev: Option<chud::crypto::hash::Hash>, height: usize) -> Message {
    Message::try_from(MessageData::new(Vec::new(), prev, None, None, height, 0)).unwrap()
}

fn h(b: u8) -> chud::crypto::hash::Hash {
    chud::crypto::hash::Hash::new([b; 32])
}

#[test]
fn download_head_asks_half_of_the_peers() {
    let mut ctx = Context::new();
    assert_eq!(ctx.download_head(5, 100), (0, 2));
    assert_eq!(ctx.download_head(4, 100), (1, 2));
    assert_eq!(ctx.download_head(0, 100), (2, 0));
}

#[test]
fn quorum_reports_the_highest_answer() {
    let mut ctx = Context::new();
    let (round, contacted) = ctx.download_head(4, 1000);
    assert_eq!(contacted, 2);
    // One of two answers is not more than half.
    assert_eq!(ctx.on_longest_chain_response(h(1), 3, round, 1500), None);
    // Two of two answers is; the higher one wins.
    assert_eq!(
        ctx.on_longest_chain_response(h(2), 7, round, 1600),
        Some(Event::LongestChainUpdated { hash: h(2), height: 7 })
    );
    // Of equally high answers, the last one wins.
    assert_eq!(
        ctx.on_longest_chain_response(h(3), 7, round, 1700),
        Some(Event::LongestChainUpdated { hash: h(3), height: 7 })
    );
    assert_eq!(
        ctx.on_longest_chain_response(h(4), 2, round, 1800),
        Some(Event::LongestChainUpdated { hash: h(3), height: 7 })
    );
}

#[test]
fn late_or_unknown_answers_are_dropped() {
    let mut ctx = Context::new();
    let (round, _) = ctx.download_head(0, 1000);
    assert_eq!(ctx.on_longest_chain_response(h(1), 3, round + 1, 1000), None);
    assert_eq!(ctx.on_longest_chain_response(h(1), 3, round, 1000 + 60000), None);
    // An answer within the time limit counts; zero peers were asked, so one
    // answer is a quorum.
    assert_eq!(
        ctx.on_longest_chain_response(h(1), 3, round, 1000 + 59999),
        Some(Event::LongestChainUpdated { hash: h(1), height: 3 })
    );
}

#[test]
fn queries_report_commits_and_loads() {
    let mut ctx = Context::new();
    ctx.register_upload(1, h(9));
    ctx.download_msg(2);
    assert_eq!(ctx.on_query_progressed(1, true, None), Some(Event::MessageCommitted(h(9))));
    // The upload was forgotten.
    assert_eq!(ctx.on_query_progressed(1, true, None), None);
    let m = message(None, 0);
    assert_eq!(ctx.on_query_progressed(2, false, Some(m.clone())), Some(Event::MessageLoaded(m.clone())));
    assert_eq!(ctx.on_query_progressed(3, false, Some(m)), None);
    ctx.register_upload(4, h(8));
    assert_eq!(ctx.on_query_progressed(4, false, None), None);
    assert_eq!(ctx.on_query_progressed(4, true, None), None);
}

#[test]
fn longest_chain_request_answers_with_the_head() {
    let mut rt = Rt::default();
    assert_eq!(Context::on_longest_chain_request(&rt, 3), None);
    let a = message(None, 0);
    let b = message(Some(*a.hash()), 1);
    rt.insert_message(a);
    rt.insert_message(b.clone());
    assert_eq!(
        Context::on_longest_chain_request(&rt, 3),
        Some(Response::LongestChain { height: 1, hash: *b.hash(), query_round: 3 })
    );
}

#[test]
fn upload_walks_back_from_the_head() {
    let mut rt = Rt::default();
    let plan = Context::upload_chain(&rt);
    assert!(plan.hashes.is_empty());
    assert!(!plan.missing);
    let a = message(None, 0);
    let b = message(Some(*a.hash()), 1);
    let c = message(Some(*b.hash()), 2);
    rt.insert_message(a.clone());
    rt.insert_message(b.clone());
    rt.insert_message(c.clone());
    let plan = Context::upload_chain(&rt);
    assert_eq!(plan.hashes, vec![*c.hash(), *b.hash(), *a.hash()]);
    assert!(!plan.missing);
}

#[test]
fn upload_reports_a_missing_message() {
    let mut rt = Rt::default();
    let a = message(None, 0);
    let b = message(Some(*a.hash()), 1);
    rt.insert_message(b.clone());
    let plan = Context::upload_chain(&rt);
    assert_eq!(plan.hashes, vec![*b.hash()]);
    assert!(plan.missing);
}

#[test]
fn floodsub_messages_on_topic_are_stored() {
    let mut rt = Rt::default();
    let mut ctx = MsgContext;
    let a = message(None, 0);
    assert_eq!(ctx.on_floodsub_message(&mut rt, false, Some(a.clone())), None);
    assert_eq!(rt.message_count(), 0);
    assert_eq!(ctx.on_floodsub_message(&mut rt, true, None), None);
    assert_eq!(ctx.on_floodsub_message(&mut rt, true, Some(a.clone())), Some(MsgEvent::MessageReceived(*a.hash())));
    assert_eq!(rt.head(), Some(&a));
}

#[test]
fn upload_of_a_fork_reaches_the_root() {
    let mut rt = Rt::default();
    let m1 = message(None, 0);
    let m2 = message(Some(*m1.hash()), 1);
    let m3 = message(Some(*m1.hash()), 1);
    let m4 = message(Some(*m3.hash()), 2);
    rt.insert_message(m1.clone());
    rt.insert_message(m2);
    rt.insert_message(m3.clone());
    rt.insert_message(m4.clone());
    let plan = Context::upload_chain(&rt);
    assert_eq!(plan.hashes, vec![*m4.hash(), *m3.hash(), *m1.hash()]);
    assert!(!plan.missing);
}
