//! One scan at a time: the side that starts scans, asks them to stop and
//! waits for their results, and the ticket that the scanning side holds.
//!
//! A result crosses from the scanning side to the waiting side through a
//! channel. The waiting side never blocks: it polls.

use vstd::prelude::*;
use crossbeam_channel::{Receiver, Sender, TryRecvError};
use crate::cancel::CancelFlag;
use crate::scan::ScanResult;

verus! {

/// `crossbeam_channel::Receiver`, the receiving end of a channel. Nothing
/// is known of what is inside one.
#[verifier::external_type_specification]
#[verifier::external_body]
#[verifier::reject_recursive_types(T)]
pub struct ExReceiver<T>(Receiver<T>);

/// `crossbeam_channel::Sender`, the sending end of a channel. Nothing is
/// known of what is inside one.
#[verifier::external_type_specification]
#[verifier::external_body]
#[verifier::reject_recursive_types(T)]
pub struct ExSender<T>(Sender<T>);

/// What a poll of the channel found.
#[derive(Debug)]
pub enum Polled {
    /// A result had arrived.
    Ready(ScanResult),
    /// Nothing has arrived yet.
    Empty,
    /// Nothing has arrived and the scanning side is gone.
    Disconnected,
}

/// `crossbeam_channel::unbounded`: a new channel, as its two ends.
#[verifier::external_body]
fn open_channel() -> (ends: (Sender<ScanResult>, Receiver<ScanResult>)) {
    crossbeam_channel::unbounded()
}

/// `Receiver::try_recv`: takes a result from the channel if one is there,
/// without waiting. What it finds depends on the scanning side, so
/// nothing is promised of it.
#[verifier::external_body]
fn try_receive(receiver: &Receiver<ScanResult>) -> (polled: Polled) {
    match receiver.try_recv() {
        Ok(result) => Polled::Ready(result),
        Err(TryRecvError::Empty) => Polled::Empty,
        Err(TryRecvError::Disconnected) => Polled::Disconnected,
    }
}

/// `Sender::send`: hands `result` to the channel. If the receiving end is
/// gone the result comes back unchanged.
#[verifier::external_body]
fn send_result(sender: &Sender<ScanResult>, result: ScanResult) -> (sent: Result<(), ScanResult>)
    ensures
        sent matches Err(back) ==> back == result,
{
    match sender.send(result) {
        Ok(()) => Ok(()),
        Err(error) => Err(error.0),
    }
}

/// What the scanning side holds for one scan: the flag to poll and the
/// way to hand in the result.
pub struct ScanTicket {
    sender: Sender<ScanResult>,
    cancel: CancelFlag,
}

impl ScanTicket {
    /// The flag of the scan that the ticket is for.
    pub closed spec fn flag(&self) -> CancelFlag {
        self.cancel
    }

    /// The flag that the scan is to poll.
    pub fn cancel_flag(&self) -> (flag: &CancelFlag)
        ensures
            *flag == self.flag(),
    {
        &self.cancel
    }

    /// Hands in the result, which ends the ticket: a scan has one result.
    /// The result comes back if nobody waits for it any more.
    pub fn deliver(self, result: ScanResult) -> (sent: Result<(), ScanResult>)
        ensures
            sent matches Err(back) ==> back == result,
    {
        send_result(&self.sender, result)
    }
}

/// The waiting side's hold on a running scan.
struct Running {
    receiver: Receiver<ScanResult>,
    cancel: CancelFlag,
}

/// The waiting side.
pub struct ScanSession {
    running: Option<Running>,
}

impl ScanSession {
    /// Whether a scan was begun whose result has not been taken yet.
    pub closed spec fn scanning(&self) -> bool {
        self.running is Some
    }

    /// A session in which no scan runs.
    pub fn new() -> (session: ScanSession)
        ensures
            !session.scanning(),
    {
        ScanSession { running: None }
    }

    /// Whether a scan was begun whose result has not been taken yet.
    pub fn is_scanning(&self) -> (scanning: bool)
        ensures
            scanning == self.scanning(),
    {
        self.running.is_some()
    }

    /// Begins a scan, with a channel and a flag of its own, and returns
    /// the ticket for the scanning side. While a scan is running no other
    /// is begun.
    pub fn begin(&mut self) -> (ticket: Option<ScanTicket>)
        ensures
            final(self).scanning(),
            ticket is Some <==> !old(self).scanning(),
    {
        if self.running.is_some() {
            return None;
        }
        let (sender, receiver) = open_channel();
        let cancel = CancelFlag::new();
        let ticket = ScanTicket { sender, cancel: cancel.share() };
        self.running = Some(Running { receiver, cancel });
        Some(ticket)
    }

    /// Asks the running scan to stop. Says whether there was one to ask.
    pub fn request_cancel(&self) -> (asked: bool)
        ensures
            asked == self.scanning(),
    {
        match &self.running {
            Some(running) => {
                running.cancel.cancel();
                true
            },
            None => false,
        }
    }

    /// Takes what a poll of the channel found. A result that arrived
    /// while a scan was running ends that scan: it is handed out, and the
    /// session is free for the next scan. Anything else changes nothing:
    /// a scan whose other side is gone goes on being waited for.
    pub fn accept(&mut self, polled: Polled) -> (result: Option<ScanResult>)
        ensures
            result == match polled {
                Polled::Ready(arrived) if old(self).scanning() => Some(arrived),
                _ => None,
            },
            final(self).scanning() == (old(self).scanning() && !(polled is Ready)),
    {
        match polled {
            Polled::Ready(arrived) => {
                if self.running.is_some() {
                    self.running = None;
                    Some(arrived)
                } else {
                    None
                }
            },
            _ => None,
        }
    }

    /// Takes the result of the running scan if it has arrived, without
    /// waiting for it. A result is handed out once; with it the scan is
    /// over and the session free for the next.
    pub fn poll(&mut self) -> (result: Option<ScanResult>)
        ensures
            !old(self).scanning() ==> result is None,
            final(self).scanning() == (old(self).scanning() && result is None),
    {
        let polled = match &self.running {
            Some(running) => try_receive(&running.receiver),
            None => Polled::Empty,
        };
        self.accept(polled)
    }
}

} // verus!
