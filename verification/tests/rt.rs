use chud::sys::msg::{Message, MessageData};
use chud::sys::rt::{Chain, Rt};
use std::error::Error;

fn message(prev: Option<chud::crypto::hash::Hash>, height: usize) -> Result<Message, Box<dyn Error>> {
    let data = MessageData::new(Vec::new(), prev, Some(String::from("")), None, height, 0);
    Ok(Message::try_from(data).map_err(|e| format!("{:?}", e))?)
}

#[test]
fn rt_test_default() {
    let rt = Rt::default();
    assert_eq!(rt.message_count(), 0);
    assert_eq!(rt.chain_count(), 0);
}

#[test]
fn test_insert_message() -> Result<(), Box<dyn Error>> {
    let mut rt = Rt::default();

    // Generate blank message
    let msg = message(None, 0)?;

    // Insert the message
    rt.insert_message(msg.clone());

    assert_eq!(rt.chain_head(0).ok_or("Message not found in head list.")?, *msg.hash());
    rt.chain_head(0).ok_or("Message not found in head list.")?;
    assert!(rt.chain_contains(0, msg.hash()));
    assert_eq!(rt.message(msg.hash()).ok_or("Message not found in messages.")?, &msg);

    Ok(())
}

#[test]
fn test_longest_chain() -> Result<(), Box<dyn Error>> {
    let mut rt = Rt::default();

    // Generate blank message
    let msg = message(None, 0)?;

    // Insert the message
    rt.insert_message(msg.clone());

    assert_eq!(rt.longest_chain().ok_or("No longest chain found")?, *msg.hash());

    // Make another chain
    let msg2 = message(None, 0)?;
    rt.insert_message(msg2.clone());

    let msg3 = message(Some(*msg2.hash()), 1)?;
    rt.insert_message(msg3.clone());

    assert_eq!(rt.longest_chain().ok_or("No longest chain found")?, *msg3.hash());
    assert_eq!(rt.chain_count(), 2);

    Ok(())
}

#[test]
fn test_get_message() -> Result<(), Box<dyn Error>> {
    let mut rt = Rt::default();

    assert!(rt.get_message(chud::crypto::hash::Hash::new([0; 32])).is_none());

    // Generate blank message
    let msg = message(None, 0)?;

    // Insert the message
    rt.insert_message(msg.clone());

    assert_eq!(rt.get_message(*msg.hash()), Some(&msg));

    // Make another chain
    let msg2 = message(None, 0)?;
    rt.insert_message(msg2.clone());

    let msg3 = message(Some(*msg2.hash()), 1)?;
    rt.insert_message(msg3.clone());

    assert_eq!(rt.get_message(*msg.hash()), None);
    assert_eq!(rt.get_message(*msg2.hash()), Some(&msg2));
    assert_eq!(rt.get_message(*msg3.hash()), Some(&msg3));

    Ok(())
}

#[test]
fn test_head() -> Result<(), Box<dyn Error>> {
    let mut rt = Rt::default();

    // Generate blank message
    let msg = message(None, 0)?;

    // Insert the message
    rt.insert_message(msg.clone());

    assert_eq!(rt.head(), Some(&msg));

    // Make another chain
    let msg2 = message(None, 0)?;
    rt.insert_message(msg2.clone());

    let msg3 = message(Some(*msg2.hash()), 1)?;
    rt.insert_message(msg3.clone());

    assert_eq!(rt.head(), Some(&msg3));

    Ok(())
}

#[test]
fn empty_runtime_has_no_head() {
    let rt = Rt::default();
    assert_eq!(rt.longest_chain(), None);
    assert_eq!(rt.head(), None);
}

#[test]
fn equal_heights_prefer_the_first_chain() -> Result<(), Box<dyn Error>> {
    let mut rt = Rt::default();
    let a = message(None, 3)?;
    let b = message(None, 3)?;
    rt.insert_message(a.clone());
    rt.insert_message(b.clone());
    assert_eq!(rt.longest_chain(), Some(*a.hash()));
    assert_eq!(rt.head(), Some(&a));
    assert_eq!(rt.get_message(*b.hash()), None);
    Ok(())
}

#[test]
fn inserting_twice_keeps_one_message() -> Result<(), Box<dyn Error>> {
    let mut rt = Rt::default();
    let a = message(None, 0)?;
    rt.insert_message(a.clone());
    rt.insert_message(a.clone());
    assert_eq!(rt.message_count(), 1);
    assert_eq!(rt.chain_count(), 2);
    Ok(())
}

#[test]
fn extending_a_chain_moves_its_head() -> Result<(), Box<dyn Error>> {
    let mut rt = Rt::default();
    let a = message(None, 0)?;
    let b = message(Some(*a.hash()), 1)?;
    let c = message(Some(*b.hash()), 2)?;
    rt.insert_message(a.clone());
    rt.insert_message(b.clone());
    rt.insert_message(c.clone());
    assert_eq!(rt.chain_count(), 1);
    assert_eq!(rt.chain_head(0), Some(*c.hash()));
    assert!(rt.chain_contains(0, a.hash()));
    assert!(rt.chain_contains(0, b.hash()));
    assert_eq!(rt.get_message(*a.hash()), Some(&a));
    assert_eq!(rt.get_message(rt.longest_chain().unwrap()), rt.head());
    Ok(())
}

#[test]
fn parts_round_trip() -> Result<(), Box<dyn Error>> {
    let mut rt = Rt::default();
    let a = message(None, 0)?;
    let b = message(Some(*a.hash()), 1)?;
    rt.insert_message(a.clone());
    rt.insert_message(b.clone());
    let messages: Vec<Message> = rt.message_list().to_vec();
    let chains: Vec<Chain> = rt
        .chain_list()
        .iter()
        .map(|c| Chain::new(c.head(), c.members().to_vec()))
        .collect();
    let back = Rt::from_parts(messages, chains).ok_or("parts were refused")?;
    assert!(back.same_state(&rt));
    // The same state held in another order is the same.
    let reordered: Vec<Message> = rt.message_list().iter().rev().cloned().collect();
    let chains: Vec<Chain> = rt
        .chain_list()
        .iter()
        .map(|c| Chain::new(c.head(), c.members().iter().rev().cloned().collect()))
        .collect();
    let other = Rt::from_parts(reordered, chains).ok_or("parts were refused")?;
    assert!(other.same_state(&rt));
    let mut grown = Rt::from_parts(rt.message_list().to_vec(), Vec::new()).ok_or("parts were refused")?;
    assert!(!grown.same_state(&rt));
    grown.insert_message(message(None, 5)?);
    assert!(!grown.same_state(&rt));
    Ok(())
}

#[test]
fn invalid_parts_are_refused() -> Result<(), Box<dyn Error>> {
    let a = message(None, 0)?;
    let b = message(None, 0)?;
    // The same message twice.
    assert!(Rt::from_parts(vec![a.clone(), a.clone()], Vec::new()).is_none());
    // A chain whose head is not among its members.
    assert!(Rt::from_parts(vec![a.clone(), b.clone()], vec![Chain::new(*a.hash(), vec![*b.hash()])]).is_none());
    // A chain with a member that is not stored.
    assert!(Rt::from_parts(vec![a.clone()], vec![Chain::new(*a.hash(), vec![*a.hash(), *b.hash()])]).is_none());
    // A chain with a member twice.
    assert!(Rt::from_parts(vec![a.clone()], vec![Chain::new(*a.hash(), vec![*a.hash(), *a.hash()])]).is_none());
    assert!(Rt::from_parts(vec![a.clone()], vec![Chain::new(*a.hash(), vec![*a.hash()])]).is_some());
    Ok(())
}

#[test]
fn ancestors_of_a_fork_are_on_the_current_chain() -> Result<(), Box<dyn Error>> {
    let mut rt = Rt::default();
    let m1 = message(None, 0)?;
    let m2 = message(Some(*m1.hash()), 1)?;
    let m3 = message(Some(*m1.hash()), 1)?;
    let m4 = message(Some(*m3.hash()), 2)?;
    rt.insert_message(m1.clone());
    rt.insert_message(m2.clone());
    rt.insert_message(m3.clone());
    rt.insert_message(m4.clone());
    assert_eq!(rt.longest_chain(), Some(*m4.hash()));
    assert_eq!(rt.get_message(*m4.hash()), Some(&m4));
    assert_eq!(rt.get_message(*m3.hash()), Some(&m3));
    assert_eq!(rt.get_message(*m1.hash()), Some(&m1));
    assert_eq!(rt.get_message(*m2.hash()), None);
    Ok(())
}
