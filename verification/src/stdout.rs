//! Rank-ordered output: per-rank text is collected at one coordinating
//! process, turn by turn, over paired transfers.
//!
//! A turn belongs to one rank. Every process calls [`StdOutEnv::write`] for
//! the same sequence of turns. The coordinator appends its own text directly;
//! for another rank's turn it first asks for the byte count, then for the
//! bytes, answering each with a token. The transfers are made by the caller:
//! `write` and [`StdOutEnv::resume`] say which transfer is pending and take
//! what it brought.

use vstd::prelude::*;
use vstd::string::*;
use crate::error::CommunicationError;

verus! {

/// What one side of a paired transfer hands over.
#[derive(Debug, PartialEq, Eq)]
pub enum Message {
    /// The acknowledgment token.
    Token(bool),
    /// A byte count.
    Length(usize),
    /// The text itself.
    Payload(Vec<u8>),
}

/// The mathematical value of a [`Message`].
pub enum MessageView {
    Token(bool),
    Length(int),
    Payload(Seq<u8>),
}

impl View for Message {
    type V = MessageView;

    open spec fn view(&self) -> MessageView {
        match self {
            Message::Token(b) => MessageView::Token(*b),
            Message::Length(n) => MessageView::Length(*n as int),
            Message::Payload(p) => MessageView::Payload(p@),
        }
    }
}

/// Where a process stands in a turn, and with it the transfer it has to make
/// next.
#[derive(Debug, PartialEq, Eq)]
pub enum Turn {
    /// Nothing is pending.
    Done,
    /// Coordinator: send the token to `peer` and receive a byte count from it.
    RequestLength { peer: i32 },
    /// Coordinator: send the token to `peer` and receive `len` bytes from it.
    RequestPayload { peer: i32, len: usize },
    /// Writer: send the byte count of `payload` to `root` and receive a token.
    OfferLength { root: i32, payload: Vec<u8> },
    /// Writer: send `payload` to `root` and receive a token.
    OfferPayload { root: i32, payload: Vec<u8> },
}

/// The mathematical value of a [`Turn`].
pub enum TurnView {
    Done,
    RequestLength { peer: int },
    RequestPayload { peer: int, len: int },
    OfferLength { root: int, payload: Seq<u8> },
    OfferPayload { root: int, payload: Seq<u8> },
}

impl View for Turn {
    type V = TurnView;

    open spec fn view(&self) -> TurnView {
        match self {
            Turn::Done => TurnView::Done,
            Turn::RequestLength { peer } => TurnView::RequestLength { peer: *peer as int },
            Turn::RequestPayload { peer, len } => TurnView::RequestPayload {
                peer: *peer as int,
                len: *len as int,
            },
            Turn::OfferLength { root, payload } => TurnView::OfferLength {
                root: *root as int,
                payload: payload@,
            },
            Turn::OfferPayload { root, payload } => TurnView::OfferPayload {
                root: *root as int,
                payload: payload@,
            },
        }
    }
}

impl TurnView {
    /// What the process sends in the pending transfer.
    pub open spec fn outgoing(self) -> Option<MessageView> {
        match self {
            TurnView::Done => None,
            TurnView::RequestLength { .. } => Some(MessageView::Token(true)),
            TurnView::RequestPayload { .. } => Some(MessageView::Token(true)),
            TurnView::OfferLength { payload, .. } => Some(MessageView::Length(payload.len() as int)),
            TurnView::OfferPayload { payload, .. } => Some(MessageView::Payload(payload)),
        }
    }

    /// The rank at the other end of the pending transfer.
    pub open spec fn partner(self) -> Option<int> {
        match self {
            TurnView::Done => None,
            TurnView::RequestLength { peer } => Some(peer),
            TurnView::RequestPayload { peer, .. } => Some(peer),
            TurnView::OfferLength { root, .. } => Some(root),
            TurnView::OfferPayload { root, .. } => Some(root),
        }
    }
}

/// The output state of one process: who it is, who coordinates, and what the
/// coordinator has collected so far.
pub struct StdOutEnv {
    pub rank: i32,
    pub procs: i32,
    pub root_rank: i32,
    pub stdout: Vec<u8>,
}

/// The mathematical value of a [`StdOutEnv`].
pub struct Report {
    pub rank: int,
    pub procs: int,
    pub root_rank: int,
    pub stdout: Seq<u8>,
}

impl View for StdOutEnv {
    type V = Report;

    open spec fn view(&self) -> Report {
        Report {
            rank: self.rank as int,
            procs: self.procs as int,
            root_rank: self.root_rank as int,
            stdout: self.stdout@,
        }
    }
}

impl Report {
    /// This process is the coordinator.
    pub open spec fn is_root(self) -> bool {
        self.rank == self.root_rank
    }

    /// `r` is a rank of the process group.
    pub open spec fn knows(self, r: int) -> bool {
        0 <= r < self.procs
    }

    /// The same process with `text` added to what it has collected.
    pub open spec fn appended(self, text: Seq<u8>) -> Report {
        Report { stdout: self.stdout + text, ..self }
    }

    /// The first step of the turn of `turn_rank`, in which this process would
    /// write `text`.
    pub open spec fn begin(self, text: Seq<u8>, turn_rank: int) -> Result<
        (Report, TurnView),
        CommunicationError,
    > {
        if self.is_root() {
            if self.rank == turn_rank {
                Ok((self.appended(text), TurnView::Done))
            } else if self.knows(turn_rank) {
                Ok((self, TurnView::RequestLength { peer: turn_rank }))
            } else {
                Err(CommunicationError::UnknownRank)
            }
        } else if self.rank == turn_rank {
            if self.knows(self.root_rank) {
                Ok((self, TurnView::OfferLength { root: self.root_rank, payload: text }))
            } else {
                Err(CommunicationError::UnknownRank)
            }
        } else {
            Ok((self, TurnView::Done))
        }
    }

    /// The step that follows when the transfer pending in `turn` has brought
    /// `reply`. Only the coordinator requests, and only another process
    /// offers.
    pub open spec fn resume(self, turn: TurnView, reply: MessageView) -> Result<
        (Report, TurnView),
        CommunicationError,
    > {
        match (turn, reply) {
            (TurnView::RequestLength { peer }, MessageView::Length(n)) => {
                if self.is_root() {
                    Ok((self, TurnView::RequestPayload { peer, len: n }))
                } else {
                    Err(CommunicationError::Desynchronized)
                }
            },
            (TurnView::RequestPayload { peer, len }, MessageView::Payload(bytes)) => {
                if self.is_root() && bytes.len() == len {
                    Ok((self.appended(bytes), TurnView::Done))
                } else {
                    Err(CommunicationError::Desynchronized)
                }
            },
            (TurnView::OfferLength { root, payload }, MessageView::Token(ack)) => {
                if self.is_root() {
                    Err(CommunicationError::Desynchronized)
                } else if ack {
                    Ok((self, TurnView::OfferPayload { root, payload }))
                } else {
                    Err(CommunicationError::Rejected)
                }
            },
            (TurnView::OfferPayload { root, payload }, MessageView::Token(ack)) => {
                if self.is_root() {
                    Err(CommunicationError::Desynchronized)
                } else if ack {
                    Ok((self, TurnView::Done))
                } else {
                    Err(CommunicationError::Rejected)
                }
            },
            _ => Err(CommunicationError::Desynchronized),
        }
    }
}

/// A process in a turn: its output state and where it stands.
pub type Side = (Report, TurnView);

/// One paired transfer between two processes: each goes on with what the
/// other sends.
pub open spec fn transfer(a: Side, b: Side) -> Result<(Side, Side), CommunicationError> {
    match (a.1.outgoing(), b.1.outgoing()) {
        (Some(from_a), Some(from_b)) => match (a.0.resume(a.1, from_b), b.0.resume(b.1, from_a)) {
            (Ok(x), Ok(y)) => Ok((x, y)),
            (Err(e), _) => Err(e),
            (_, Err(e)) => Err(e),
        },
        _ => Err(CommunicationError::Desynchronized),
    }
}

/// The turn of the process `writer`, which writes `text`, as the coordinator
/// `root` and the writer take it: both open the turn and make two transfers.
/// What the coordinator itself would write, `unused`, plays no part.
pub open spec fn turn_of_other(root: Report, writer: Report, unused: Seq<u8>, text: Seq<u8>) -> Result<
    (Side, Side),
    CommunicationError,
> {
    match (root.begin(unused, writer.rank), writer.begin(text, writer.rank)) {
        (Ok(a), Ok(b)) => match transfer(a, b) {
            Ok((a1, b1)) => transfer(a1, b1),
            Err(e) => Err(e),
        },
        (Err(e), _) => Err(e),
        (_, Err(e)) => Err(e),
    }
}

/// The turn of another rank brings its text to the coordinator: after two
/// transfers both are done, the coordinator has appended the text, and the
/// writer is as it was. In both transfers each of the two names the other as
/// its partner.
pub proof fn lemma_turn_delivers(root: Report, writer: Report, unused: Seq<u8>, text: Seq<u8>)
    requires
        root.is_root(),
        writer.root_rank == root.rank,
        writer.rank != root.rank,
        root.knows(writer.rank),
        writer.knows(root.rank),
    ensures
        turn_of_other(root, writer, unused, text) == Ok::<(Side, Side), CommunicationError>(
            ((root.appended(text), TurnView::Done), (writer, TurnView::Done)),
        ),
        root.begin(unused, writer.rank) matches Ok(a) && a.1.partner() == Some(writer.rank),
        writer.begin(text, writer.rank) matches Ok(b) && b.1.partner() == Some(root.rank),
{
    let a = root.begin(unused, writer.rank)->Ok_0;
    let b = writer.begin(text, writer.rank)->Ok_0;
    assert(a == (root, TurnView::RequestLength { peer: writer.rank }));
    assert(b == (writer, TurnView::OfferLength { root: root.rank, payload: text }));
    let a1 = (root, TurnView::RequestPayload { peer: writer.rank, len: text.len() as int });
    let b1 = (writer, TurnView::OfferPayload { root: root.rank, payload: text });
    assert(transfer(a, b) == Ok::<(Side, Side), CommunicationError>((a1, b1)));
}

/// A turn leaves every process that is neither the coordinator nor the
/// writer as it was, with nothing to do; and the coordinator takes its own
/// turn alone.
pub proof fn lemma_turn_of_others(env: Report, text: Seq<u8>, rank: int)
    ensures
        !env.is_root() && env.rank != rank ==> env.begin(text, rank) == Ok::<
            Side,
            CommunicationError,
        >((env, TurnView::Done)),
        env.is_root() && env.rank == rank ==> env.begin(text, rank) == Ok::<
            Side,
            CommunicationError,
        >((env.appended(text), TurnView::Done)),
{
}

/// What has been collected changes at the coordinator only: whatever a
/// process that does not coordinate is told to write or is handed, it holds
/// afterwards what it held before.
pub proof fn lemma_only_root_collects(
    env: Report,
    text: Seq<u8>,
    rank: int,
    turn: TurnView,
    reply: MessageView,
)
    requires
        !env.is_root(),
    ensures
        env.begin(text, rank) matches Ok(side) ==> side.0 == env,
        env.resume(turn, reply) matches Ok(side) ==> side.0 == env,
{
}

/// The texts one after the other.
pub open spec fn joined(texts: Seq<Seq<u8>>) -> Seq<u8>
    decreases texts.len(),
{
    if texts.len() == 0 {
        Seq::empty()
    } else {
        joined(texts.drop_last()) + texts.last()
    }
}

/// The coordinator after the turns of the ranks below `n`, taken in
/// ascending order, in which rank `r` is the process `writers[r]` and writes
/// `texts[r]`.
pub open spec fn after_turns(
    root: Report,
    writers: Seq<Report>,
    texts: Seq<Seq<u8>>,
    n: nat,
) -> Report
    decreases n,
{
    if n == 0 {
        root
    } else {
        let before = after_turns(root, writers, texts, (n - 1) as nat);
        let rank = n - 1;
        if rank == root.rank {
            match before.begin(texts[rank], rank) {
                Ok(side) => side.0,
                Err(_) => before,
            }
        } else {
            match turn_of_other(before, writers[rank], texts[root.rank], texts[rank]) {
                Ok(sides) => sides.0.0,
                Err(_) => before,
            }
        }
    }
}

/// Where all processes take the turns of all ranks in ascending order, the
/// coordinator ends with the text of every rank, once each, in the order of
/// the ranks.
pub proof fn lemma_turns_collect(
    root: Report,
    writers: Seq<Report>,
    texts: Seq<Seq<u8>>,
    n: nat,
)
    requires
        root.is_root(),
        root.knows(root.rank),
        n <= root.procs,
        writers.len() == root.procs,
        texts.len() == root.procs,
        forall|r: int|
            0 <= r < root.procs && r != root.rank ==> (#[trigger] writers[r]).rank == r
                && writers[r].root_rank == root.rank && writers[r].procs == root.procs,
    ensures
        after_turns(root, writers, texts, n) == root.appended(
            joined(texts.subrange(0, n as int)),
        ),
    decreases n,
{
    if n == 0 {
        assert(joined(texts.subrange(0, 0)) =~= Seq::<u8>::empty());
        assert(root.stdout + Seq::<u8>::empty() =~= root.stdout);
    } else {
        let m = (n - 1) as nat;
        lemma_turns_collect(root, writers, texts, m);
        let before = after_turns(root, writers, texts, m);
        let head = texts.subrange(0, m as int);
        let all = texts.subrange(0, n as int);
        assert(all.drop_last() =~= head);
        assert(all.last() == texts[m as int]);
        assert(before.stdout + texts[m as int] =~= root.stdout + joined(all));
        if m != root.rank {
            lemma_turn_delivers(before, writers[m as int], texts[root.rank], texts[m as int]);
        }
    }
}

/// Texts joined one list after another are the lists joined each by itself,
/// one after the other.
pub proof fn lemma_joined_concat(a: Seq<Seq<u8>>, b: Seq<Seq<u8>>)
    ensures
        joined(a + b) == joined(a) + joined(b),
    decreases b.len(),
{
    if b.len() == 0 {
        assert(a + b =~= a);
        assert(joined(a) + Seq::<u8>::empty() =~= joined(a));
    } else {
        lemma_joined_concat(a, b.drop_last());
        assert((a + b).drop_last() =~= a + b.drop_last());
        assert((a + b).last() == b.last());
        assert(joined(a + b) =~= joined(a) + joined(b));
    }
}

/// The coordinator after the first `n` turns of `schedule`, each turn naming
/// the rank whose turn it is and the text that the process of that rank,
/// `writers[rank]`, writes in it.
pub open spec fn after_schedule(
    root: Report,
    writers: Seq<Report>,
    schedule: Seq<(int, Seq<u8>)>,
    n: nat,
) -> Report
    decreases n,
{
    if n == 0 {
        root
    } else {
        let before = after_schedule(root, writers, schedule, (n - 1) as nat);
        let (rank, text) = schedule[n - 1];
        if rank == root.rank {
            match before.begin(text, rank) {
                Ok(side) => side.0,
                Err(_) => before,
            }
        } else {
            match turn_of_other(before, writers[rank], Seq::empty(), text) {
                Ok(sides) => sides.0.0,
                Err(_) => before,
            }
        }
    }
}

/// The texts of the first `n` turns of a schedule.
pub open spec fn texts_of(schedule: Seq<(int, Seq<u8>)>, n: nat) -> Seq<Seq<u8>> {
    Seq::new(n, |k: int| schedule[k].1)
}

/// Where all processes take the same turns in the same order, any number of
/// them for each rank, the coordinator ends with the text of every turn,
/// once each, in the order of the turns.
pub proof fn lemma_schedule_collects(
    root: Report,
    writers: Seq<Report>,
    schedule: Seq<(int, Seq<u8>)>,
    n: nat,
)
    requires
        root.is_root(),
        root.knows(root.rank),
        n <= schedule.len(),
        writers.len() == root.procs,
        forall|r: int|
            0 <= r < root.procs && r != root.rank ==> (#[trigger] writers[r]).rank == r
                && writers[r].root_rank == root.rank && writers[r].procs == root.procs,
        forall|k: int| 0 <= k < schedule.len() ==> 0 <= (#[trigger] schedule[k]).0 < root.procs,
    ensures
        after_schedule(root, writers, schedule, n) == root.appended(
            joined(texts_of(schedule, n)),
        ),
    decreases n,
{
    if n == 0 {
        assert(joined(texts_of(schedule, 0)) =~= Seq::<u8>::empty());
        assert(root.stdout + Seq::<u8>::empty() =~= root.stdout);
    } else {
        let m = (n - 1) as nat;
        lemma_schedule_collects(root, writers, schedule, m);
        let before = after_schedule(root, writers, schedule, m);
        let (rank, text) = schedule[m as int];
        let head = texts_of(schedule, m);
        let all = texts_of(schedule, n);
        assert(all.drop_last() =~= head);
        assert(all.last() == text);
        assert(before.stdout + text =~= root.stdout + joined(all));
        assert(0 <= schedule[m as int].0 < root.procs);
        if rank != root.rank {
            lemma_turn_delivers(before, writers[rank], Seq::empty(), text);
        }
    }
}

/// Copies a byte slice into a vector of its own.
fn bytes_to_vec(bytes: &[u8]) -> (v: Vec<u8>)
    ensures
        v@ == bytes@,
{
    let mut v: Vec<u8> = Vec::new();
    let mut i: usize = 0;
    while i < bytes.len()
        invariant
            i <= bytes.len(),
            v@ == bytes@.subrange(0, i as int),
        decreases bytes.len() - i,
    {
        v.push(bytes[i]);
        i = i + 1;
    }
    assert(bytes@.subrange(0, i as int) =~= bytes@);
    v
}

impl StdOutEnv {
    /// The output state of process `rank` of `procs`, with nothing collected,
    /// for a reporting phase that `root_rank` coordinates.
    pub fn new(root_rank: i32, rank: i32, procs: i32) -> (env: StdOutEnv)
        ensures
            env@ == (Report {
                rank: rank as int,
                procs: procs as int,
                root_rank: root_rank as int,
                stdout: Seq::<u8>::empty(),
            }),
    {
        StdOutEnv { rank, procs, root_rank, stdout: Vec::new() }
    }

    /// Adds `bytes` to what has been collected.
    fn append(&mut self, bytes: &[u8])
        ensures
            final(self)@ == old(self)@.appended(bytes@),
    {
        let mut i: usize = 0;
        while i < bytes.len()
            invariant
                i <= bytes.len(),
                self.rank == old(self).rank,
                self.procs == old(self).procs,
                self.root_rank == old(self).root_rank,
                self.stdout@ == old(self).stdout@ + bytes@.subrange(0, i as int),
            decreases bytes.len() - i,
        {
            self.stdout.push(bytes[i]);
            i = i + 1;
        }
        assert(bytes@.subrange(0, i as int) =~= bytes@);
    }

    /// Opens the turn of `rank`, in which this process would write `s`.
    ///
    /// The coordinator appends its own text at once. For the turn of another
    /// rank it has to ask that rank for the text; the rank whose turn it is
    /// has to offer it to the coordinator. Every other process has nothing to
    /// do. The result names the transfer that is pending after this step.
    pub fn write(&mut self, s: &str, rank: i32) -> (r: Result<Turn, CommunicationError>)
        ensures
            match old(self)@.begin(s.spec_bytes(), rank as int) {
                Ok((env, turn)) => r matches Ok(t) && t@ == turn && final(self)@ == env,
                Err(e) => r == Err::<Turn, CommunicationError>(e) && final(self)@ == old(self)@,
            },
    {
        self.write_bytes(s.as_bytes(), rank)
    }

    /// Opens the turn of `rank`, in which this process would write `bytes`:
    /// [`StdOutEnv::write`] for text that is at hand as bytes.
    pub fn write_bytes(&mut self, bytes: &[u8], rank: i32) -> (r: Result<Turn, CommunicationError>)
        ensures
            match old(self)@.begin(bytes@, rank as int) {
                Ok((env, turn)) => r matches Ok(t) && t@ == turn && final(self)@ == env,
                Err(e) => r == Err::<Turn, CommunicationError>(e) && final(self)@ == old(self)@,
            },
    {
        if self.rank == self.root_rank {
            if self.rank == rank {
                self.append(bytes);
                Ok(Turn::Done)
            } else if 0 <= rank && rank < self.procs {
                Ok(Turn::RequestLength { peer: rank })
            } else {
                Err(CommunicationError::UnknownRank)
            }
        } else if self.rank == rank {
            if 0 <= self.root_rank && self.root_rank < self.procs {
                Ok(Turn::OfferLength { root: self.root_rank, payload: bytes_to_vec(bytes) })
            } else {
                Err(CommunicationError::UnknownRank)
            }
        } else {
            Ok(Turn::Done)
        }
    }

    /// Goes on with a turn once the transfer pending in `turn` has been made
    /// and has brought `reply`.
    ///
    /// The coordinator learns the byte count, then takes the bytes and appends
    /// them; the writer goes on for as long as the coordinator acknowledges.
    /// A reply that does not belong to the pending transfer ends the turn
    /// with an error and changes nothing.
    pub fn resume(&mut self, turn: Turn, reply: Message) -> (r: Result<Turn, CommunicationError>)
        ensures
            match old(self)@.resume(turn@, reply@) {
                Ok((env, next)) => r matches Ok(t) && t@ == next && final(self)@ == env,
                Err(e) => r == Err::<Turn, CommunicationError>(e) && final(self)@ == old(self)@,
            },
    {
        let is_root: bool = self.rank == self.root_rank;
        match turn {
            Turn::Done => Err(CommunicationError::Desynchronized),
            Turn::RequestLength { peer } => match reply {
                Message::Length(n) => {
                    if is_root {
                        Ok(Turn::RequestPayload { peer, len: n })
                    } else {
                        Err(CommunicationError::Desynchronized)
                    }
                },
                _ => Err(CommunicationError::Desynchronized),
            },
            Turn::RequestPayload { peer, len } => match reply {
                Message::Payload(bytes) => {
                    if is_root && bytes.len() == len {
                        self.append(bytes.as_slice());
                        Ok(Turn::Done)
                    } else {
                        Err(CommunicationError::Desynchronized)
                    }
                },
                _ => Err(CommunicationError::Desynchronized),
            },
            Turn::OfferLength { root, payload } => match reply {
                Message::Token(ack) => {
                    if is_root {
                        Err(CommunicationError::Desynchronized)
                    } else if ack {
                        Ok(Turn::OfferPayload { root, payload })
                    } else {
                        Err(CommunicationError::Rejected)
                    }
                },
                _ => Err(CommunicationError::Desynchronized),
            },
            Turn::OfferPayload { root, payload } => match reply {
                Message::Token(ack) => {
                    if is_root {
                        Err(CommunicationError::Desynchronized)
                    } else if ack {
                        Ok(Turn::Done)
                    } else {
                        Err(CommunicationError::Rejected)
                    }
                },
                _ => Err(CommunicationError::Desynchronized),
            },
        }
    }

    /// What the coordinator has to emit at the end of the reporting phase:
    /// all that it has collected. Every other process emits nothing.
    pub fn print(&self) -> (text: Vec<u8>)
        ensures
            text@ == if self@.is_root() {
                self@.stdout
            } else {
                Seq::<u8>::empty()
            },
    {
        if self.root_rank == self.rank {
            bytes_to_vec(self.stdout.as_slice())
        } else {
            Vec::new()
        }
    }
}

} // verus!
