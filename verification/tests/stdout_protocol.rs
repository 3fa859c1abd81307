use mpi_util::error::CommunicationError;
use mpi_util::grid::MPIinfo;
use mpi_util::stdout::{Message, StdOutEnv, Turn};
use mpi_util::text::Dump;

#[test]
fn coordinator_appends_its_own_text() {
    let mut out = StdOutEnv::new(0, 0, 4);
    assert_eq!(out.write("abc", 0), Ok(Turn::Done));
    assert_eq!(out.write("de", 0), Ok(Turn::Done));
    assert_eq!(out.stdout, b"abcde".to_vec());
    assert_eq!(out.print(), b"abcde".to_vec());
}

#[test]
fn bystander_has_nothing_to_do() {
    let mut out = StdOutEnv::new(0, 2, 4);
    assert_eq!(out.write("abc", 1), Ok(Turn::Done));
    assert_eq!(out.stdout, Vec::<u8>::new());
    assert_eq!(out.print(), Vec::<u8>::new());
}

#[test]
fn coordinator_rejects_unknown_rank() {
    let mut out = StdOutEnv::new(0, 0, 4);
    assert_eq!(out.write("abc", 4), Err(CommunicationError::UnknownRank));
    assert_eq!(out.write("abc", -1), Err(CommunicationError::UnknownRank));
    assert_eq!(out.stdout, Vec::<u8>::new());
}

#[test]
fn resume_rejects_what_does_not_fit() {
    let mut out = StdOutEnv::new(0, 0, 4);
    assert_eq!(
        out.resume(Turn::RequestLength { peer: 1 }, Message::Token(true)),
        Err(CommunicationError::Desynchronized)
    );
    assert_eq!(
        out.resume(Turn::RequestPayload { peer: 1, len: 3 }, Message::Payload(vec![1, 2])),
        Err(CommunicationError::Desynchronized)
    );
    assert_eq!(out.resume(Turn::Done, Message::Token(true)), Err(CommunicationError::Desynchronized));
    assert_eq!(out.stdout, Vec::<u8>::new());
}

/// Takes one turn on all processes, passing the messages between the
/// coordinator and the rank whose turn it is as a runtime would.
fn take_turn(outs: &mut [StdOutEnv], texts: &[String], rank: i32) -> usize {
    let mut turns: Vec<Turn> = Vec::new();
    for (out, text) in outs.iter_mut().zip(texts.iter()) {
        turns.push(out.write(text, rank).unwrap());
    }
    let mut transfers = 0;
    loop {
        let busy: Vec<usize> = (0..outs.len()).filter(|&r| turns[r] != Turn::Done).collect();
        if busy.is_empty() {
            return transfers;
        }
        // a paired transfer has two ends
        assert_eq!(busy.len(), 2);
        let (a, b) = (busy[0], busy[1]);
        let to_b = outgoing(&turns[a], b as i32);
        let to_a = outgoing(&turns[b], a as i32);
        let ta = std::mem::replace(&mut turns[a], Turn::Done);
        let tb = std::mem::replace(&mut turns[b], Turn::Done);
        turns[a] = outs[a].resume(ta, to_a).unwrap();
        turns[b] = outs[b].resume(tb, to_b).unwrap();
        transfers += 1;
    }
}

/// What a process sends in the transfer that it has pending with `peer`.
fn outgoing(turn: &Turn, peer: i32) -> Message {
    match turn {
        Turn::RequestLength { peer: p } => {
            assert_eq!(*p, peer);
            Message::Token(true)
        }
        Turn::RequestPayload { peer: p, .. } => {
            assert_eq!(*p, peer);
            Message::Token(true)
        }
        Turn::OfferLength { root, payload } => {
            assert_eq!(*root, peer);
            Message::Length(payload.len())
        }
        Turn::OfferPayload { root, payload } => {
            assert_eq!(*root, peer);
            Message::Payload(payload.clone())
        }
        Turn::Done => panic!("nothing is pending"),
    }
}

#[test]
fn tags_arrive_once_each_in_rank_order() {
    let procs = 4;
    let infos: Vec<MPIinfo> = (0..procs).map(|r| MPIinfo::new(r, procs, 8).unwrap()).collect();
    let mut outs: Vec<StdOutEnv> = (0..procs).map(|r| StdOutEnv::new(0, r, procs)).collect();
    let tiles: Vec<Vec<i32>> = infos
        .iter()
        .map(|mi| {
            let mut t = vec![0; mi.tile_len()];
            mi.init(&mut t);
            t
        })
        .collect();
    let schedules: Vec<Vec<Dump>> = infos.iter().zip(tiles.iter()).map(|(mi, t)| mi.dump_local(t)).collect();
    for turn in 0..procs as usize {
        let pieces = schedules[0][turn].pieces.len();
        for k in 0..pieces {
            let texts: Vec<String> = schedules
                .iter()
                .map(|s| {
                    assert_eq!(s[turn].rank, turn as i32);
                    String::from_utf8(s[turn].pieces[k].clone()).unwrap()
                })
                .collect();
            let transfers = take_turn(&mut outs, &texts, turn as i32);
            assert_eq!(transfers, if turn == 0 { 0 } else { 2 });
        }
    }
    let text = String::from_utf8(outs[0].print()).unwrap();
    let mut from = 0;
    for r in 0..procs {
        let tag = format!("rank={}\n", r);
        assert_eq!(text.matches(&tag).count(), 1);
        let at = text.find(&tag).unwrap();
        assert!(at >= from);
        from = at + tag.len();
    }
    for r in 1..procs as usize {
        assert_eq!(outs[r].stdout, Vec::<u8>::new());
        assert_eq!(outs[r].print(), Vec::<u8>::new());
    }
    // each rank's tag is followed by its own tile
    let mut want = String::new();
    for r in 0..procs as usize {
        want.push_str(&String::from_utf8(schedules[r][r].pieces.concat()).unwrap());
    }
    assert_eq!(text, want);
    assert!(text.starts_with("rank=0\n 000 000 000 000 000 000\n 000 000 001 002 003 000\n"));
    assert!(text.contains("rank=3\n 000 000 000 000 000 000\n 000 048 049 050 051 000\n"));
}

#[test]
fn text_of_another_rank_takes_two_transfers() {
    let mut root = StdOutEnv::new(0, 0, 3);
    let mut writer = StdOutEnv::new(0, 2, 3);
    let t_root = root.write("ignored", 2).unwrap();
    let t_writer = writer.write("hello\n", 2).unwrap();
    assert_eq!(t_root, Turn::RequestLength { peer: 2 });
    assert_eq!(t_writer, Turn::OfferLength { root: 0, payload: b"hello\n".to_vec() });
    let t_root = root.resume(t_root, Message::Length(6)).unwrap();
    let t_writer = writer.resume(t_writer, Message::Token(true)).unwrap();
    assert_eq!(t_root, Turn::RequestPayload { peer: 2, len: 6 });
    assert_eq!(t_writer, Turn::OfferPayload { root: 0, payload: b"hello\n".to_vec() });
    assert_eq!(root.stdout, Vec::<u8>::new());
    let t_root = root.resume(t_root, Message::Payload(b"hello\n".to_vec())).unwrap();
    let t_writer = writer.resume(t_writer, Message::Token(true)).unwrap();
    assert_eq!(t_root, Turn::Done);
    assert_eq!(t_writer, Turn::Done);
    assert_eq!(root.stdout, b"hello\n".to_vec());
    assert_eq!(writer.stdout, Vec::<u8>::new());
}

#[test]
fn coordinator_need_not_be_rank_zero() {
    let mut outs: Vec<StdOutEnv> = (0..3).map(|r| StdOutEnv::new(1, r, 3)).collect();
    for turn in 0..3 {
        let texts: Vec<String> = (0..3).map(|r| format!("<{} by {}>", turn, r)).collect();
        take_turn(&mut outs, &texts, turn);
    }
    assert_eq!(outs[1].print(), b"<0 by 0><1 by 1><2 by 2>".to_vec());
    assert_eq!(outs[0].print(), Vec::<u8>::new());
    assert_eq!(outs[2].print(), Vec::<u8>::new());
}

#[test]
fn empty_text_is_a_turn_too() {
    let mut outs: Vec<StdOutEnv> = (0..2).map(|r| StdOutEnv::new(0, r, 2)).collect();
    let texts = vec![String::new(), String::new()];
    assert_eq!(take_turn(&mut outs, &texts, 1), 2);
    assert_eq!(outs[0].stdout, Vec::<u8>::new());
}

#[test]
fn text_is_taken_as_bytes() {
    let mut out = StdOutEnv::new(0, 0, 1);
    out.write("# 通信前\n", 0).unwrap();
    assert_eq!(out.print(), "# 通信前\n".as_bytes().to_vec());
}

#[test]
fn negative_acknowledgment_ends_the_turn() {
    let mut writer = StdOutEnv::new(0, 1, 2);
    let t = writer.write("abc", 1).unwrap();
    assert_eq!(writer.resume(t, Message::Token(false)), Err(CommunicationError::Rejected));
    let t = writer.write("abc", 1).unwrap();
    let t = writer.resume(t, Message::Token(true)).unwrap();
    assert_eq!(writer.resume(t, Message::Token(false)), Err(CommunicationError::Rejected));
    let t = writer.write("abc", 1).unwrap();
    assert_eq!(writer.resume(t, Message::Length(3)), Err(CommunicationError::Desynchronized));
}

#[test]
fn writer_needs_a_coordinator_in_the_group() {
    let mut writer = StdOutEnv::new(5, 1, 2);
    assert_eq!(writer.write("abc", 1), Err(CommunicationError::UnknownRank));
    let mut other = StdOutEnv::new(5, 0, 2);
    assert_eq!(other.write("abc", 1), Ok(Turn::Done));
}

#[test]
fn only_the_coordinator_requests_and_only_others_offer() {
    let mut other = StdOutEnv::new(0, 1, 2);
    assert_eq!(
        other.resume(Turn::RequestLength { peer: 0 }, Message::Length(3)),
        Err(CommunicationError::Desynchronized)
    );
    assert_eq!(
        other.resume(Turn::RequestPayload { peer: 0, len: 3 }, Message::Payload(vec![1, 2, 3])),
        Err(CommunicationError::Desynchronized)
    );
    assert_eq!(other.stdout, Vec::<u8>::new());
    let mut root = StdOutEnv::new(0, 0, 2);
    assert_eq!(
        root.resume(Turn::OfferLength { root: 0, payload: vec![1] }, Message::Token(true)),
        Err(CommunicationError::Desynchronized)
    );
    assert_eq!(
        root.resume(Turn::OfferPayload { root: 0, payload: vec![1] }, Message::Token(true)),
        Err(CommunicationError::Desynchronized)
    );
    assert_eq!(root.stdout, Vec::<u8>::new());
}

#[test]
fn bytes_are_written_as_text_is() {
    let mut a = StdOutEnv::new(0, 0, 2);
    let mut b = StdOutEnv::new(0, 0, 2);
    assert_eq!(a.write("rank=0\n", 0), b.write_bytes(b"rank=0\n", 0));
    assert_eq!(a.stdout, b.stdout);
    let mut a = StdOutEnv::new(0, 1, 2);
    let mut b = StdOutEnv::new(0, 1, 2);
    assert_eq!(a.write("xyz", 1), b.write_bytes(b"xyz", 1));
}
