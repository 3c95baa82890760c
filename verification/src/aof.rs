//! Append-only file (AOF) persistence: the handle of the log, the durability
//! policy and the decisions of the log's writer.
//!
//! Every *mutating* command is appended to a log file as its wire frame. A
//! dedicated thread owns the file and gets its work through a channel. The
//! functions here decide what goes into that channel and what the writer does
//! with it; they do no file I/O.
use std::sync::mpsc::{Receiver, Sender};
use vstd::prelude::*;

use crate::sums::{lemma_total_take_next, total};
use crate::text::{
    eq_ignoring_case, law_case_does_not_matter, law_trimmed, same_ignoring_case, to_chars, trim,
    trimmed, white,
};
use crate::value::items_view;

verus! {

/// The sending half of a channel of the standard library.
#[verifier::external_type_specification]
#[verifier::external_body]
#[verifier::reject_recursive_types(T)]
pub struct ExSender<T>(std::sync::mpsc::Sender<T>);

/// The receiving half of a channel of the standard library.
#[verifier::external_type_specification]
#[verifier::external_body]
#[verifier::reject_recursive_types(T)]
pub struct ExReceiver<T>(std::sync::mpsc::Receiver<T>);

/// Messages sent to the writer thread.
pub enum AofMsg {
    /// Append one command frame to the log.
    Frame(Vec<u8>),
    /// Replace the log with this compacted snapshot (log rewrite / compaction).
    Rewrite(Vec<Vec<u8>>),
    /// Flush + fsync everything buffered, then acknowledge (graceful shutdown).
    Flush(Sender<()>),
}

/// What a message to the writer thread says.
#[verifier::ext_equal]
pub enum AofMsgView {
    Frame(Seq<u8>),
    Rewrite(Seq<Seq<u8>>),
    Flush,
}

impl View for AofMsg {
    type V = AofMsgView;

    open spec fn view(&self) -> AofMsgView {
        match self {
            AofMsg::Frame(f) => AofMsgView::Frame(f@),
            AofMsg::Rewrite(frames) => AofMsgView::Rewrite(items_view(frames@)),
            AofMsg::Flush(_) => AofMsgView::Flush,
        }
    }
}

/// The messages that the channel has accepted through this handle, oldest first.
pub uninterp spec fn accepted(tx: Sender<AofMsg>) -> Seq<AofMsgView>;

/// `std::sync::mpsc::Sender::send`: hands a message to the writer thread without
/// blocking. It succeeds if the receiving half is still there, and the message
/// is then queued behind all earlier ones; otherwise nothing is queued. Whether
/// the receiver is still there depends on another thread.
#[verifier::external_body]
pub(crate) fn send(tx: &mut Sender<AofMsg>, msg: AofMsg) -> (r: bool)
    ensures
        r ==> accepted(*final(tx)) == accepted(*old(tx)).push(msg@),
        !r ==> accepted(*final(tx)) == accepted(*old(tx)),
{
    tx.send(msg).is_ok()
}

/// Whether the channel to the writer can answer `r` when it is offered `msg` on a handle through
/// which it has accepted `sent`.
pub closed spec fn writer_answers(sent: Seq<AofMsgView>, msg: AofMsgView, r: bool) -> bool {
    exists|tx: &mut Sender<AofMsg>, m: AofMsg|
        accepted(*tx) == sent && m@ == msg && #[trigger] call_ensures(send, (tx, m), r)
}

/// The writer's answer is that of the channel, and nothing else: a message is offered to it
/// as it is, and it takes the message or does not.
pub(crate) proof fn law_writer_answers(sent: Seq<AofMsgView>, msg: AofMsgView, r: bool)
    ensures
        writer_answers(sent, msg, r) <==> exists|tx: &mut Sender<AofMsg>, m: AofMsg|
            accepted(*tx) == sent && m@ == msg && #[trigger] call_ensures(send, (tx, m), r),
{
}

/// Calls a function on a handle and a message.
fn called_with<F: Fn(&mut Sender<AofMsg>, AofMsg) -> bool>(
    f: F,
    tx: &mut Sender<AofMsg>,
    msg: AofMsg,
) -> (r: bool)
    requires
        forall|x: &mut Sender<AofMsg>| #[trigger] call_requires(f, (x, msg)),
    ensures
        exists|x: &mut Sender<AofMsg>|
            *x == *old(tx) && *final(x) == *final(tx) && #[trigger] call_ensures(f, (x, msg), r),
{
    f(tx, msg)
}

/// Offers a message to the writer thread. Returns whether the channel took it.
fn offer(tx: &mut Sender<AofMsg>, msg: AofMsg) -> (r: bool)
    ensures
        r ==> accepted(*final(tx)) == accepted(*old(tx)).push(msg@),
        !r ==> accepted(*final(tx)) == accepted(*old(tx)),
        writer_answers(accepted(*old(tx)), msg@, r),
{
    called_with(send, tx, msg)
}

/// `std::sync::mpsc::channel`: makes a channel. Nothing is claimed of it.
pub assume_specification<T>[ std::sync::mpsc::channel::<T> ]() -> (r: (Sender<T>, Receiver<T>))
;

/// `std::sync::mpsc::Receiver::recv_timeout`: waits for a message for at most
/// `secs` seconds. Whether one comes depends on another thread, so nothing is
/// claimed of the result.
#[verifier::external_body]
pub(crate) fn wait_for(rx: &Receiver<()>, secs: u64) -> (r: bool) {
    rx.recv_timeout(std::time::Duration::from_secs(secs)).is_ok()
}

/// Whether an acknowledgement was waited for, for at most `secs` seconds.
pub closed spec fn waited(secs: u64) -> bool {
    exists|rx: &Receiver<()>, r: bool| #[trigger] call_ensures(wait_for, (rx, secs), r)
}

/// An acknowledgement was waited for as long as the receiver was told to wait.
pub(crate) proof fn law_waited(secs: u64)
    ensures
        waited(secs) <==> exists|rx: &Receiver<()>, r: bool| #[trigger]
            call_ensures(wait_for, (rx, secs), r),
{
}

/// Waits for an acknowledgement for at most `secs` seconds.
fn wait(rx: &Receiver<()>, secs: u64)
    ensures
        waited(secs),
{
    let _ = called_for(wait_for, rx, secs);
}

/// Calls a function on a receiver and a number of seconds.
fn called_for<F: Fn(&Receiver<()>, u64) -> bool>(f: F, rx: &Receiver<()>, secs: u64) -> (r: bool)
    requires
        call_requires(f, (rx, secs)),
    ensures
        call_ensures(f, (rx, secs), r),
{
    f(rx, secs)
}

/// How many seconds a flush waits for the writer's confirmation: a request that
/// was `taken` is waited for, but not for ever; one that was not needs no wait.
pub fn ack_wait(taken: bool) -> (r: Option<u64>)
    ensures
        r == (if taken {
            Some(2u64)
        } else {
            None
        }),
{
    if taken {
        Some(2)
    } else {
        None
    }
}

/// Handle to the running AOF writer.
pub struct Aof {
    /// Leads to the writer thread.
    pub tx: Sender<AofMsg>,
    /// Approximate current on-disk size (rewrite trigger).
    pub size: u64,
    /// Completed rewrites (exposed as a metric).
    pub rewrites: u64,
    /// A rewrite is queued/in-flight (dedupes triggers).
    pub rewriting: bool,
    /// False after an I/O error in the writer thread.
    pub healthy: bool,
    /// Total write errors (exposed as a metric).
    pub write_errors: u64,
    /// When the last rewrite started or completed, in milliseconds of a clock that
    /// never goes back; `None` if there was none.
    pub last_rewrite: Option<u64>,
    /// Minimum interval between manual rewrites, in seconds.
    pub rewrite_min_interval: u64,
}

/// The state of an AOF handle.
#[verifier::ext_equal]
pub struct AofView {
    /// The messages handed to the writer thread through this handle.
    pub sent: Seq<AofMsgView>,
    pub size: u64,
    pub rewrites: u64,
    pub rewriting: bool,
    pub healthy: bool,
    pub write_errors: u64,
    pub last_rewrite: Option<u64>,
    pub rewrite_min_interval: u64,
}

impl View for Aof {
    type V = AofView;

    open spec fn view(&self) -> AofView {
        AofView {
            sent: accepted(self.tx),
            size: self.size,
            rewrites: self.rewrites,
            rewriting: self.rewriting,
            healthy: self.healthy,
            write_errors: self.write_errors,
            last_rewrite: self.last_rewrite,
            rewrite_min_interval: self.rewrite_min_interval,
        }
    }
}

/// One more on a counter that wraps around at 2^64.
pub open spec fn counted(n: u64) -> u64 {
    if n == u64::MAX {
        0
    } else {
        (n + 1) as u64
    }
}

impl AofView {
    /// The state after a message is offered to the writer thread, which takes it or
    /// not.
    pub open spec fn offered(self, msg: AofMsgView, taken: bool) -> AofView {
        if taken {
            AofView { sent: self.sent.push(msg), ..self }
        } else {
            self
        }
    }

    /// The state after a frame is logged: nothing is sent once the writer is dead,
    /// and a writer that does not take the frame is dead from there on.
    pub open spec fn logged(self, frame: Seq<u8>, taken: bool) -> AofView {
        if self.healthy && taken {
            self.offered(AofMsgView::Frame(frame), true)
        } else {
            AofView { healthy: false, write_errors: counted(self.write_errors), ..self }
        }
    }

    /// The state after frames are logged one by one.
    pub open spec fn all_logged(self, frames: Seq<Seq<u8>>, taken: Seq<bool>) -> AofView
        decreases frames.len(),
    {
        if frames.len() == 0 {
            self
        } else {
            let n = frames.len() - 1;
            self.all_logged(frames.drop_last(), taken).logged(frames.last(), taken[n])
        }
    }
}

impl Aof {
    /// The handle of a writer whose log holds `size` bytes.
    pub fn new(tx: Sender<AofMsg>, size: u64, rewrite_min_interval: u64) -> (r: Aof)
        ensures
            r@ == (AofView {
                sent: accepted(tx),
                size,
                rewrites: 0,
                rewriting: false,
                healthy: true,
                write_errors: 0,
                last_rewrite: None,
                rewrite_min_interval,
            }),
    {
        Aof {
            tx,
            size,
            rewrites: 0,
            rewriting: false,
            healthy: true,
            write_errors: 0,
            last_rewrite: None,
            rewrite_min_interval,
        }
    }

    /// Append a pre-encoded frame. Returns false if the writer is dead (I/O error).
    /// The caller should reject the write rather than silently proceeding memory-only.
    pub fn log(&mut self, frame: Vec<u8>) -> (r: bool)
        ensures
            final(self)@ == old(self)@.logged(frame@, r),
            !old(self).healthy ==> !r,
            old(self).healthy ==> writer_answers(old(self)@.sent, AofMsgView::Frame(frame@), r),
    {
        if !self.healthy {
            self.write_errors = self.write_errors.wrapping_add(1);
            return false;
        }
        if offer(&mut self.tx, AofMsg::Frame(frame)) {
            true
        } else {
            self.healthy = false;
            self.write_errors = self.write_errors.wrapping_add(1);
            false
        }
    }

    /// Durably flush the log and block until the writer confirms (bounded wait).
    /// Called on graceful shutdown so a clean restart never loses buffered writes.
    /// Returns whether the writer took the request, which only the writer thread
    /// decides: then the request is queued last, otherwise nothing is queued.
    pub fn flush_blocking(&mut self) -> (r: bool)
        ensures
            final(self)@ == old(self)@.offered(AofMsgView::Flush, r),
            writer_answers(old(self)@.sent, AofMsgView::Flush, r),
            r ==> waited(2),
    {
        let (ack_tx, ack_rx) = std::sync::mpsc::channel();
        let taken: bool = offer(&mut self.tx, AofMsg::Flush(ack_tx));
        if let Some(secs) = ack_wait(taken) {
            wait(&ack_rx, secs);
        }
        taken
    }
}

/// The length of each frame.
pub open spec fn lengths(frames: Seq<Seq<u8>>) -> Seq<nat> {
    frames.map_values(|f: Seq<u8>| f.len())
}

/// Total byte length of a set of frames (post-rewrite file size).
pub fn frames_len(frames: &[Vec<u8>]) -> (r: u64)
    requires
        total(lengths(items_view(frames@))) <= u64::MAX,
    ensures
        r == total(lengths(items_view(frames@))),
{
    let ghost sizes = lengths(items_view(frames@));
    let mut sum: u64 = 0;
    let mut i: usize = 0;
    assert(sizes.take(0) =~= seq![]);
    while i < frames.len()
        invariant
            i <= frames@.len(),
            sizes == lengths(items_view(frames@)),
            total(sizes) <= u64::MAX,
            sum == total(sizes.take(i as int)),
        decreases frames@.len() - i,
    {
        proof {
            lemma_total_take_next(sizes, i as int);
        }
        sum = sum + frames[i].len() as u64;
        i += 1;
    }
    assert(sizes.take(i as int) =~= sizes);
    sum
}

impl Aof {
    /// The writer appended a frame of `len` bytes.
    pub fn appended(&mut self, len: u64)
        ensures
            final(self)@ == (AofView {
                size: ((old(self).size + len) % 18446744073709551616) as u64,
                ..old(self)@
            }),
    {
        self.size = self.size.wrapping_add(len);
    }

    /// The writer replaced the log by a compacted one of `len` bytes at the time `at`.
    pub fn rewritten(&mut self, len: u64, at: u64)
        ensures
            final(self)@ == (AofView {
                size: len,
                rewrites: counted(old(self).rewrites),
                last_rewrite: Some(at),
                rewriting: false,
                ..old(self)@
            }),
    {
        self.size = len;
        self.rewrites = self.rewrites.wrapping_add(1);
        self.last_rewrite = Some(at);
        self.rewriting = false;
    }

    /// The writer could not compact the log and keeps the existing file.
    pub fn rewrite_failed(&mut self)
        ensures
            final(self)@ == (AofView { rewriting: false, ..old(self)@ }),
    {
        self.rewriting = false;
    }

    /// The writer stopped on an I/O error.
    pub fn writer_died(&mut self)
        ensures
            final(self)@ == (AofView {
                healthy: false,
                write_errors: counted(old(self).write_errors),
                ..old(self)@
            }),
    {
        self.healthy = false;
        self.write_errors = self.write_errors.wrapping_add(1);
    }
}

/// Durability policy — how often the writer thread calls `fsync`.
#[derive(Clone, Copy, Debug, PartialEq, Eq, Structural)]
pub enum Fsync {
    /// `fsync` after every command. Strongest; throughput bounded by disk fsync
    /// latency. (Replies aren't gated on the fsync, so it's "flush immediately",
    /// not synchronous-ack.)
    Always,
    /// `fsync` at most once per second. A power loss / OS crash loses ≤1s; a mere
    /// process crash loses nothing (writes reach the OS every batch). The hot path
    /// never blocks on disk. The balanced default.
    EverySec,
    /// Never explicitly `fsync`; the OS flushes on its own schedule. Fastest.
    /// Writes still reach the OS every batch (so a process crash loses nothing),
    /// but a power loss / OS crash can lose whatever the OS hadn't flushed yet.
    No,
}

/// The policy that a setting names; anything unknown means `EverySec`.
pub open spec fn policy_of(s: Seq<char>) -> Fsync {
    let name = trimmed(s);
    if same_ignoring_case(name, "always"@) {
        Fsync::Always
    } else if same_ignoring_case(name, "no"@) || same_ignoring_case(name, "never"@) {
        Fsync::No
    } else {
        Fsync::EverySec
    }
}

impl Fsync {
    /// Reads a policy setting.
    pub fn parse(s: &str) -> (r: Fsync)
        ensures
            r == policy_of(s@),
    {
        let all: Vec<char> = to_chars(s);
        let name: &[char] = trim(all.as_slice());
        let always: Vec<char> = to_chars("always");
        let no: Vec<char> = to_chars("no");
        let never: Vec<char> = to_chars("never");
        if eq_ignoring_case(name, always.as_slice()) {
            Fsync::Always
        } else if eq_ignoring_case(name, no.as_slice()) || eq_ignoring_case(
            name,
            never.as_slice(),
        ) {
            Fsync::No
        } else {
            Fsync::EverySec
        }
    }
}

/// What happens to the writer.
#[derive(Clone, Copy, Debug, PartialEq, Eq, Structural)]
pub enum WriterEvent {
    /// A second passed without a message.
    Idle,
    /// All senders are gone.
    Gone,
    /// A frame to append.
    Frame,
    /// A snapshot to replace the log with.
    Rewrite,
    /// A request to make everything durable.
    Flush,
    /// The queue is empty; the last fsync is `since_sync_ms` milliseconds ago.
    Drained { since_sync_ms: u64 },
}

/// What the writer does.
#[derive(Clone, Copy, Debug, PartialEq, Eq, Structural)]
pub enum WriterAction {
    /// Nothing.
    Wait,
    /// fsync.
    Sync,
    /// Append the frame to the userspace buffer.
    Append,
    /// Replace the log, after the buffer is pushed to the OS if `push_first` is set.
    Compact { push_first: bool },
    /// Push the buffer to the OS and fsync as far as possible, then acknowledge.
    Settle,
    /// Push the buffer to the OS; fsync if `sync` is set.
    Push { sync: bool },
    /// Push the buffer to the OS and fsync as far as possible, then end.
    Stop,
}

/// How an action went.
#[derive(Clone, Copy, Debug, PartialEq, Eq, Structural)]
pub enum WriterResult {
    Done,
    /// The action failed; for `Compact`, the buffer was pushed but the log not replaced.
    Failed,
    /// `Push` pushed the buffer but could not fsync.
    SyncFailed,
    /// `Compact` could not push the buffer.
    PushFailed,
}

/// The writer thread's bookkeeping. The thread drains its channel in batches, so that
/// one flush (and at most one fsync) covers a whole burst.
#[derive(Clone, Copy, Debug, PartialEq, Eq, Structural)]
pub struct Writer {
    pub policy: Fsync,
    /// Frames were appended and not yet pushed to the OS.
    pub wrote: bool,
    /// Frames were pushed to the OS and not yet fsynced.
    pub unsynced: bool,
}

/// What a writer does on an event.
pub open spec fn writer_action(w: Writer, event: WriterEvent) -> WriterAction {
    match event {
        WriterEvent::Idle => if w.unsynced && w.policy == Fsync::EverySec {
            WriterAction::Sync
        } else {
            WriterAction::Wait
        },
        WriterEvent::Gone => WriterAction::Stop,
        WriterEvent::Frame => WriterAction::Append,
        WriterEvent::Rewrite => WriterAction::Compact { push_first: w.wrote },
        WriterEvent::Flush => WriterAction::Settle,
        WriterEvent::Drained { since_sync_ms } => if w.wrote {
            WriterAction::Push {
                sync: w.policy == Fsync::Always || w.policy == Fsync::EverySec && since_sync_ms
                    >= 1000,
            }
        } else {
            WriterAction::Wait
        },
    }
}

/// The writer after an action, or `None` if it dies of an I/O error or ends. A failed fsync
/// is fatal where it is the one that `EverySec` owes, on an idle second or with a push.
pub open spec fn writer_after(w: Writer, action: WriterAction, result: WriterResult) -> Option<
    Writer,
> {
    match action {
        WriterAction::Wait => Some(w),
        WriterAction::Stop => None,
        WriterAction::Settle => Some(Writer { wrote: false, unsynced: false, ..w }),
        WriterAction::Compact { push_first } => match result {
            WriterResult::Done => Some(Writer { wrote: false, unsynced: false, ..w }),
            WriterResult::PushFailed => None,
            _ => Some(w),
        },
        WriterAction::Sync => if result == WriterResult::Done {
            Some(Writer { unsynced: false, ..w })
        } else {
            None
        },
        WriterAction::Append => if result == WriterResult::Done {
            Some(Writer { wrote: true, ..w })
        } else {
            None
        },
        WriterAction::Push { sync } => if result == WriterResult::Done || result
            == WriterResult::SyncFailed && w.policy != Fsync::EverySec {
            Some(Writer { wrote: false, unsynced: !sync, ..w })
        } else {
            None
        },
    }
}

impl Writer {
    /// A writer with nothing outstanding.
    pub fn new(policy: Fsync) -> (r: Writer)
        ensures
            r == (Writer { policy, wrote: false, unsynced: false }),
    {
        Writer { policy, wrote: false, unsynced: false }
    }

    /// What to do on an event.
    pub fn decide(&self, event: WriterEvent) -> (r: WriterAction)
        ensures
            r == writer_action(*self, event),
    {
        match event {
            WriterEvent::Idle => {
                if self.unsynced && self.policy == Fsync::EverySec {
                    WriterAction::Sync
                } else {
                    WriterAction::Wait
                }
            },
            WriterEvent::Gone => WriterAction::Stop,
            WriterEvent::Frame => WriterAction::Append,
            WriterEvent::Rewrite => WriterAction::Compact { push_first: self.wrote },
            WriterEvent::Flush => WriterAction::Settle,
            WriterEvent::Drained { since_sync_ms } => {
                if self.wrote {
                    WriterAction::Push {
                        sync: self.policy == Fsync::Always || self.policy == Fsync::EverySec
                            && since_sync_ms >= 1000,
                    }
                } else {
                    WriterAction::Wait
                }
            },
        }
    }

    /// Takes note of how an action went. Returns false if the writer has to end.
    pub fn record(&mut self, action: WriterAction, result: WriterResult) -> (r: bool)
        ensures
            r == writer_after(*old(self), action, result) is Some,
            r ==> Some(*final(self)) == writer_after(*old(self), action, result),
            !r ==> *final(self) == *old(self),
    {
        match action {
            WriterAction::Wait => true,
            WriterAction::Stop => false,
            WriterAction::Settle => {
                self.wrote = false;
                self.unsynced = false;
                true
            },
            WriterAction::Compact { push_first: _ } => match result {
                WriterResult::Done => {
                    self.wrote = false;
                    self.unsynced = false;
                    true
                },
                WriterResult::PushFailed => false,
                _ => true,
            },
            WriterAction::Sync => {
                if result == WriterResult::Done {
                    self.unsynced = false;
                    true
                } else {
                    false
                }
            },
            WriterAction::Append => {
                if result == WriterResult::Done {
                    self.wrote = true;
                    true
                } else {
                    false
                }
            },
            WriterAction::Push { sync } => {
                if result == WriterResult::Done || result == WriterResult::SyncFailed
                    && self.policy != Fsync::EverySec {
                    self.wrote = false;
                    self.unsynced = !sync;
                    true
                } else {
                    false
                }
            },
        }
    }
}

/// Under every policy a batch of appended frames is pushed to the OS once the queue is
/// empty, so that a process crash loses nothing; under `Always` it is fsynced, too, and
/// under `EverySec` it is fsynced at once or at the next idle second.
pub proof fn law_batch_is_pushed(w: Writer, since_sync_ms: u64)
    requires
        w.wrote,
    ensures
        ({
            let action = writer_action(w, WriterEvent::Drained { since_sync_ms });
            let after = writer_after(w, action, WriterResult::Done);
            &&& action is Push
            &&& after matches Some(v) && !v.wrote
            &&& w.policy == Fsync::Always ==> action == WriterAction::Push { sync: true }
                && !after->0.unsynced
            &&& w.policy == Fsync::EverySec ==> action == WriterAction::Push { sync: true }
                || writer_action(after->0, WriterEvent::Idle) == WriterAction::Sync
            &&& w.policy == Fsync::No ==> action == WriterAction::Push { sync: false }
        }),
{
}

/// A requested flush leaves nothing outstanding.
pub proof fn law_flush_settles(w: Writer, result: WriterResult)
    ensures
        writer_after(w, writer_action(w, WriterEvent::Flush), result) == Some(
            (Writer { wrote: false, unsynced: false, ..w }),
        ),
{
}

/// The bytes of frames, one after the other.
pub open spec fn joined(frames: Seq<Seq<u8>>) -> Seq<u8>
    decreases frames.len(),
{
    if frames.len() == 0 {
        seq![]
    } else {
        joined(frames.drop_last()) + frames.last()
    }
}

/// What a log file that held `file` holds after the writer has carried out `msgs`: frames
/// are appended in order, and a snapshot takes the place of everything before it, unless
/// the file could not be replaced, of which `replaced` tells.
pub open spec fn file_after(
    file: Seq<u8>,
    msgs: Seq<AofMsgView>,
    replaced: Seq<bool>,
) -> Seq<u8>
    decreases msgs.len(),
{
    if msgs.len() == 0 {
        file
    } else {
        let n = msgs.len() - 1;
        let held = file_after(file, msgs.drop_last(), replaced);
        match msgs[n] {
            AofMsgView::Frame(f) => held + f,
            AofMsgView::Rewrite(frames) => if replaced[n] {
                joined(frames)
            } else {
                held
            },
            AofMsgView::Flush => held,
        }
    }
}

/// The log as the writer handles it: what the OS has, and what is still in the buffer.
#[verifier::ext_equal]
pub struct LogFile {
    pub pushed: Seq<u8>,
    pub buffered: Seq<u8>,
}

impl LogFile {
    /// Everything that was written.
    pub open spec fn all(self) -> Seq<u8> {
        self.pushed + self.buffered
    }

    /// The log with the buffer pushed to the OS.
    pub open spec fn flushed(self) -> LogFile {
        LogFile { pushed: self.all(), buffered: seq![] }
    }
}

/// What the writer is told of a message.
pub open spec fn event_of(msg: AofMsgView) -> WriterEvent {
    match msg {
        AofMsgView::Frame(_) => WriterEvent::Frame,
        AofMsgView::Rewrite(_) => WriterEvent::Rewrite,
        AofMsgView::Flush => WriterEvent::Flush,
    }
}

impl AofMsg {
    /// What the writer is told of the message.
    pub fn event(&self) -> (r: WriterEvent)
        ensures
            r == event_of(self@),
    {
        match self {
            AofMsg::Frame(_) => WriterEvent::Frame,
            AofMsg::Rewrite(_) => WriterEvent::Rewrite,
            AofMsg::Flush(_) => WriterEvent::Flush,
        }
    }
}

/// The log after an action that a message called for and that went well; only the
/// replacement of the file may have failed.
pub open spec fn performed(
    file: LogFile,
    action: WriterAction,
    msg: AofMsgView,
    replaced: bool,
) -> LogFile {
    match action {
        WriterAction::Wait => file,
        WriterAction::Sync => file,
        WriterAction::Append => match msg {
            AofMsgView::Frame(f) => LogFile { buffered: file.buffered + f, ..file },
            _ => file,
        },
        WriterAction::Compact { push_first } => match msg {
            AofMsgView::Rewrite(frames) if replaced => LogFile {
                pushed: joined(frames),
                buffered: seq![],
            },
            _ => if push_first {
                file.flushed()
            } else {
                file
            },
        },
        WriterAction::Push { sync } => file.flushed(),
        WriterAction::Settle => file.flushed(),
        WriterAction::Stop => file.flushed(),
    }
}

/// The writer and its log after messages.
pub open spec fn writer_run(
    w: Writer,
    file: LogFile,
    msgs: Seq<AofMsgView>,
    replaced: Seq<bool>,
) -> (Writer, LogFile)
    decreases msgs.len(),
{
    if msgs.len() == 0 {
        (w, file)
    } else {
        let n = msgs.len() - 1;
        let (v, g) = writer_run(w, file, msgs.drop_last(), replaced);
        let action = writer_action(v, event_of(msgs[n]));
        let result = if msgs[n] is Rewrite && !replaced[n] {
            WriterResult::Failed
        } else {
            WriterResult::Done
        };
        (writer_after(v, action, result)->0, performed(g, action, msgs[n], replaced[n]))
    }
}

/// What the writer decides carries out the messages in order: what it has written, in the
/// buffer or beyond, is what the messages amount to, and once its queue is empty all of it
/// is with the OS.
pub proof fn law_writer_carries_out(
    w: Writer,
    file: LogFile,
    msgs: Seq<AofMsgView>,
    replaced: Seq<bool>,
    since_sync_ms: u64,
)
    requires
        !w.wrote ==> file.buffered.len() == 0,
    ensures
        ({
            let (v, g) = writer_run(w, file, msgs, replaced);
            let action = writer_action(v, WriterEvent::Drained { since_sync_ms });
            let h = performed(g, action, AofMsgView::Flush, false);
            &&& g.all() == file_after(file.all(), msgs, replaced)
            &&& !v.wrote ==> g.buffered.len() == 0
            &&& h.pushed == file_after(file.all(), msgs, replaced)
            &&& h.buffered.len() == 0
        }),
    decreases msgs.len(),
{
    let (v, g) = writer_run(w, file, msgs, replaced);
    if msgs.len() > 0 {
        let n = msgs.len() - 1;
        law_writer_carries_out(w, file, msgs.drop_last(), replaced, since_sync_ms);
        let (u, f) = writer_run(w, file, msgs.drop_last(), replaced);
        match msgs[n] {
            AofMsgView::Frame(frame) => {
                assert(g.all() =~= f.all() + frame);
            },
            AofMsgView::Rewrite(frames) => {
                if replaced[n] {
                    assert(g.all() =~= joined(frames));
                } else {
                    assert(g.all() =~= f.all());
                }
            },
            AofMsgView::Flush => {
                assert(g.all() =~= f.all());
            },
        }
    }
    if !v.wrote {
        assert(g.all() =~= g.pushed);
    }
}

/// A compaction that fails loses nothing: the log stays as it was.
pub proof fn law_failed_rewrite_keeps_log(
    file: Seq<u8>,
    msgs: Seq<AofMsgView>,
    frames: Seq<Seq<u8>>,
    replaced: Seq<bool>,
)
    requires
        !replaced[msgs.len() as int],
    ensures
        file_after(file, msgs.push(AofMsgView::Rewrite(frames)), replaced) == file_after(
            file,
            msgs,
            replaced,
        ),
{
    assert(msgs.push(AofMsgView::Rewrite(frames)).drop_last() =~= msgs);
}

/// How a log file that holds `len` bytes is opened.
pub struct Opening {
    /// The file is new: the magic bytes go to its start.
    pub write_magic: bool,
    /// Its size after that.
    pub size: u64,
}

/// A new file gets the magic header so future replays can validate the format.
pub fn opening(len: u64) -> (r: Opening)
    ensures
        r.write_magic == (len == 0),
        r.size == (if len == 0 {
            5
        } else {
            len
        }),
{
    if len == 0 {
        Opening { write_magic: true, size: 5 }
    } else {
        Opening { write_magic: false, size: len }
    }
}

/// What came of a request to compact the log.
#[derive(Clone, Copy, Debug, PartialEq, Eq, Structural)]
pub enum RewriteStatus {
    Started,
    AlreadyRunning,
    TooSoon,
    Disabled,
}

/// Whether the last rewrite is less than the minimum interval ago at `at`.
pub open spec fn too_soon(a: AofView, at: u64) -> bool {
    a.last_rewrite matches Some(last) && at < last + a.rewrite_min_interval * 1000
}

/// Whether a request to compact the log gets as far as the writer, and what it is
/// answered otherwise. Only a manual request is rate limited.
pub open spec fn rewrite_refusal(aof: Option<AofView>, at: u64, manual: bool) -> Option<
    RewriteStatus,
> {
    match aof {
        None => Some(RewriteStatus::Disabled),
        Some(a) => if manual && too_soon(a, at) {
            Some(RewriteStatus::TooSoon)
        } else if a.rewriting {
            Some(RewriteStatus::AlreadyRunning)
        } else {
            None
        },
    }
}

impl AofView {
    /// The state after a snapshot is handed to the writer, which takes it or not. The
    /// start is stamped either way, so that the rate limit catches back-to-back callers.
    pub open spec fn compacting(self, frames: Seq<Seq<u8>>, at: u64, taken: bool) -> AofView {
        AofView { rewriting: taken, last_rewrite: Some(at), ..self }.offered(
            AofMsgView::Rewrite(frames),
            taken,
        )
    }
}

impl Aof {
    /// Whether a request to compact the log is refused, and how.
    pub fn refusal(&self, at: u64, manual: bool) -> (r: Option<RewriteStatus>)
        ensures
            r == rewrite_refusal(Some(self@), at, manual),
    {
        if manual {
            if let Some(last) = self.last_rewrite {
                if (at as u128) < last as u128 + self.rewrite_min_interval as u128 * 1000 {
                    return Some(RewriteStatus::TooSoon);
                }
            }
        }
        if self.rewriting {
            Some(RewriteStatus::AlreadyRunning)
        } else {
            None
        }
    }

    /// Hands a snapshot to the writer thread for compaction. Returns false if the writer
    /// is dead.
    pub fn compact(&mut self, frames: Vec<Vec<u8>>, at: u64) -> (r: bool)
        requires
            !old(self).rewriting,
        ensures
            final(self)@ == old(self)@.compacting(items_view(frames@), at, r),
            writer_answers(old(self)@.sent, AofMsgView::Rewrite(items_view(frames@)), r),
    {
        self.rewriting = true;
        self.last_rewrite = Some(at);
        if offer(&mut self.tx, AofMsg::Rewrite(frames)) {
            true
        } else {
            self.rewriting = false;
            false
        }
    }
}

/// State of the background compaction.
#[derive(Clone, Copy, Debug, PartialEq, Eq, Structural)]
pub struct Maintenance {
    /// Log size after the last rewrite (0 => compact once past the minimum).
    pub base: u64,
    /// A rewrite started here is not known to be over.
    pub pending: bool,
}

/// The background compaction after a look at the log: once a rewrite is over, the
/// compacted size is the new baseline.
pub open spec fn looked_at(m: Maintenance, size: u64, rewriting: bool) -> Maintenance {
    if m.pending && !rewriting {
        Maintenance { base: size, pending: false }
    } else {
        m
    }
}

/// Whether the log has grown enough: it is both at least `min_bytes` and at least twice
/// its size after the last rewrite.
pub open spec fn overgrown(m: Maintenance, size: u64, min_bytes: u64) -> bool {
    !m.pending && size >= min_bytes && size >= (if m.base * 2 > u64::MAX {
        u64::MAX as int
    } else {
        m.base * 2
    })
}

impl Maintenance {
    /// The state at the start.
    pub fn new() -> (r: Maintenance)
        ensures
            r == (Maintenance { base: 0, pending: false }),
    {
        Maintenance { base: 0, pending: false }
    }

    /// Looks at the log. Returns whether to start a rewrite.
    pub fn tick(&mut self, size: u64, rewriting: bool, min_bytes: u64) -> (r: bool)
        ensures
            *final(self) == looked_at(*old(self), size, rewriting),
            r == overgrown(*final(self), size, min_bytes),
    {
        if self.pending && !rewriting {
            self.base = size;
            self.pending = false;
        }
        let twice: u64 = if self.base > u64::MAX / 2 {
            u64::MAX
        } else {
            self.base * 2
        };
        !self.pending && size >= min_bytes && size >= twice
    }

    /// Takes note of what came of the request.
    pub fn triggered(&mut self, status: RewriteStatus)
        ensures
            *final(self) == (Maintenance {
                pending: old(self).pending || status == RewriteStatus::Started,
                ..*old(self)
            }),
    {
        if status == RewriteStatus::Started {
            self.pending = true;
        }
    }
}

/// While a rewrite started by the background compaction is under way, it starts no other.
pub proof fn law_one_rewrite_at_a_time(m: Maintenance, size: u64, min_bytes: u64)
    requires
        m.pending,
    ensures
        !overgrown(looked_at(m, size, true), size, min_bytes),
{
}

/// A setting names a policy in any case and with white space around it: `always`, or `no` or
/// `never`; every other text, and an empty one, means `EverySec`.
pub proof fn law_policy(before: Seq<char>, name: Seq<char>, after: Seq<char>)
    requires
        name.len() > 0 ==> !white(name[0]) && !white(name.last()),
        forall|i: int| 0 <= i < before.len() ==> white(#[trigger] before[i]),
        forall|i: int| 0 <= i < after.len() ==> white(#[trigger] after[i]),
    ensures
        ({
            let policy = policy_of(before + name + after);
            let means = |word: Seq<char>| same_ignoring_case(name, word);
            &&& policy == Fsync::Always <==> means("always"@)
            &&& policy == Fsync::No <==> means("no"@) || means("never"@)
            &&& policy == Fsync::EverySec <==> !means("always"@) && !means("no"@) && !means(
                "never"@,
            )
        }),
{
    law_trimmed(before, name, after);
    reveal_strlit("always");
    reveal_strlit("no");
    reveal_strlit("never");
    law_case_does_not_matter(name, "always"@);
    law_case_does_not_matter(name, "no"@);
    law_case_does_not_matter(name, "never"@);
}

/// When the writer calls fsync: under `Always` after every batch; under `EverySec` after a batch
/// that comes a second or more after the last fsync, and in an idle second if there is
/// anything to sync; under `No` never on its own account.
pub proof fn law_when_to_sync(w: Writer, since_sync_ms: u64)
    ensures
        ({
            let drained = writer_action(w, WriterEvent::Drained { since_sync_ms });
            let idle = writer_action(w, WriterEvent::Idle);
            &&& !w.wrote ==> drained == WriterAction::Wait
            &&& w.wrote && w.policy == Fsync::Always ==> drained == WriterAction::Push { sync: true }
            &&& w.wrote && w.policy == Fsync::EverySec && since_sync_ms >= 1000 ==> drained
                == WriterAction::Push { sync: true }
            &&& w.wrote && w.policy == Fsync::EverySec && since_sync_ms < 1000 ==> drained
                == WriterAction::Push { sync: false }
            &&& w.wrote && w.policy == Fsync::No ==> drained == WriterAction::Push { sync: false }
            &&& idle == WriterAction::Sync <==> w.policy == Fsync::EverySec && w.unsynced
            &&& idle == WriterAction::Sync || idle == WriterAction::Wait
        }),
{
}

/// What the writer survives: it dies of a frame that it could not append, of a buffer that it
/// could not push, and of an fsync that `EverySec` owes and that failed; a compaction that
/// failed leaves it as it was. It ends when all senders are gone.
pub proof fn law_writer_survives(w: Writer, sync: bool, push_first: bool, result: WriterResult)
    ensures
        writer_after(w, WriterAction::Append, result) is Some <==> result == WriterResult::Done,
        writer_after(w, WriterAction::Sync, result) is Some <==> result == WriterResult::Done,
        writer_after(w, WriterAction::Push { sync }, result) is Some <==> result
            == WriterResult::Done || (result == WriterResult::SyncFailed && w.policy
            != Fsync::EverySec),
        writer_after(w, WriterAction::Compact { push_first }, result) is Some <==> result
            != WriterResult::PushFailed,
        writer_after(w, WriterAction::Compact { push_first }, WriterResult::Failed) == Some(w),
        writer_after(w, WriterAction::Settle, result) is Some,
        writer_after(w, WriterAction::Wait, result) == Some(w),
        writer_action(w, WriterEvent::Gone) == WriterAction::Stop,
        writer_after(w, WriterAction::Stop, result) is None,
        writer_after(w, WriterAction::Append, WriterResult::Done) matches Some(v) && v.wrote
            && v.unsynced == w.unsynced && v.policy == w.policy,
        writer_after(w, WriterAction::Push { sync }, WriterResult::Done) matches Some(v) && !v.wrote
            && v.unsynced == !sync,
{
}

/// The rate limit on manual rewrites: after a rewrite was asked for at `at`, a manual request is
/// too soon until the minimum interval, in seconds, has passed on a clock of milliseconds.
/// Then it is turned down only while the rewrite is still under way. A request of the
/// background compaction is never too soon.
pub proof fn law_rate_limit(a: AofView, frames: Seq<Seq<u8>>, at: u64, taken: bool, later: u64)
    ensures
        ({
            let b = a.compacting(frames, at, taken);
            let wait = 1000 * b.rewrite_min_interval;
            &&& b.rewrite_min_interval == a.rewrite_min_interval
            &&& b.rewriting == taken
            &&& later - at < wait ==> rewrite_refusal(Some(b), later, true) == Some(
                RewriteStatus::TooSoon,
            )
            &&& later - at >= wait && taken ==> rewrite_refusal(Some(b), later, true) == Some(
                RewriteStatus::AlreadyRunning,
            )
            &&& later - at >= wait && !taken ==> rewrite_refusal(Some(b), later, true) is None
            &&& taken ==> rewrite_refusal(Some(b), later, false) == Some(
                RewriteStatus::AlreadyRunning,
            )
            &&& !taken ==> rewrite_refusal(Some(b), later, false) is None
            &&& taken ==> b.sent == a.sent.push(AofMsgView::Rewrite(frames))
            &&& !taken ==> b.sent == a.sent
        }),
        rewrite_refusal(None, later, true) == Some(RewriteStatus::Disabled),
        rewrite_refusal(None, later, false) == Some(RewriteStatus::Disabled),
        a.last_rewrite is None && !a.rewriting ==> rewrite_refusal(Some(a), later, true) is None,
{
}

/// The background compaction: once a rewrite has left a log of `base` bytes behind, the next one
/// starts as soon as the log has both reached `min_bytes` and doubled, and not before.
pub proof fn law_compacts_when_doubled(m: Maintenance, base: u64, size: u64, min_bytes: u64)
    requires
        2 * base <= u64::MAX,
    ensures
        m.pending ==> (overgrown(looked_at(m, base, false), size, min_bytes) <==> size >= min_bytes
            && size >= 2 * base),
        m.pending ==> looked_at(m, base, true) == m,
        !m.pending && 2 * m.base <= u64::MAX ==> (overgrown(
            looked_at(m, size, false),
            size,
            min_bytes,
        ) <==> size >= min_bytes && size >= 2 * m.base),
{
}

/// The size that is accounted for a compacted log is the length of the file.
pub proof fn law_compacted_size(frames: Seq<Seq<u8>>)
    ensures
        total(lengths(frames)) == joined(frames).len(),
    decreases frames.len(),
{
    if frames.len() > 0 {
        law_compacted_size(frames.drop_last());
        assert(lengths(frames).drop_last() =~= lengths(frames.drop_last()));
    } else {
        assert(lengths(frames) =~= seq![]);
    }
}

/// A new log begins with five magic bytes; one that is there is left as it is.
pub proof fn law_opening(len: u64, r: Opening)
    requires
        call_ensures(opening, (len,), r),
    ensures
        r.write_magic <==> len == 0,
        len == 0 ==> r.size == 5,
        len > 0 ==> r.size == len,
{
}

/// A flush that the writer took is waited for two seconds at most, and no other is.
pub proof fn law_ack_wait(taken: bool, r: Option<u64>)
    requires
        call_ensures(ack_wait, (taken,), r),
    ensures
        taken ==> r == Some(2u64),
        !taken ==> r is None,
{
}

/// The account that is kept of the log: a frame adds its length; a rewrite that is over leaves the
/// length of the new file, is counted, stamped and no longer under way; one that failed is no
/// longer under way; a writer that died leaves the log unhealthy and is counted.
pub proof fn law_bookkeeping()
    ensures
        forall|a: &mut Aof, len: u64| #[trigger]
            call_ensures(Aof::appended, (a, len), ()) && a.size + len <= u64::MAX ==> final(a)@
                == (AofView { size: (a.size + len) as u64, ..(*a)@ }),
        forall|a: &mut Aof, len: u64, at: u64| #[trigger]
            call_ensures(Aof::rewritten, (a, len, at), ()) && a.rewrites < u64::MAX ==> final(a)@
                == (AofView {
                size: len,
                rewrites: (a.rewrites + 1) as u64,
                rewriting: false,
                last_rewrite: Some(at),
                ..(*a)@
            }),
        forall|a: &mut Aof| #[trigger]
            call_ensures(Aof::rewrite_failed, (a,), ()) ==> final(a)@ == (AofView {
                rewriting: false,
                ..(*a)@
            }),
        forall|a: &mut Aof| #[trigger]
            call_ensures(Aof::writer_died, (a,), ()) && a.write_errors < u64::MAX ==> final(a)@ == (
            AofView { healthy: false, write_errors: (a.write_errors + 1) as u64, ..(*a)@ }),
        forall|m: &mut Maintenance, status: RewriteStatus| #[trigger]
            call_ensures(Maintenance::triggered, (m, status), ()) ==> final(m).base == m.base && (
            final(m).pending <==> m.pending || status == RewriteStatus::Started),
{
}

} // verus!
