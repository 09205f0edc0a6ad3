//! Queues between threads.

use vstd::prelude::*;

use crate::error::Error;

verus! {

/// The sending end of a flume channel.
#[verifier::external_type_specification]
#[verifier::external_body]
#[verifier::reject_recursive_types(T)]
pub struct ExFlumeSender<T>(flume::Sender<T>);

/// The receiving end of a flume channel.
#[verifier::external_type_specification]
#[verifier::external_body]
#[verifier::reject_recursive_types(T)]
pub struct ExFlumeReceiver<T>(flume::Receiver<T>);

/// `flume::unbounded`: the two ends of a new channel that has room for any number of values.
#[verifier::external_body]
fn open_channel<T>() -> (result: (flume::Sender<T>, flume::Receiver<T>)) {
    flume::unbounded()
}

/// `flume::Sender::send` on a channel that has room for any number of values: takes the value,
/// or gives it back if nobody is left to receive it.
#[verifier::external_body]
fn send_value<T>(sender: &flume::Sender<T>, value: T) -> (result: Result<(), T>)
    ensures
        result matches Err(back) ==> back == value,
{
    sender.send(value).map_err(|error| error.0)
}

/// What comes out of a channel.
pub enum Received<T> {
    Value(T),
    /// There is nothing in it.
    Nothing,
    /// There is nothing in it, and nobody is left to send.
    Over,
}

/// `flume::Receiver::try_recv`: the first value in the channel, if there is one. What comes out
/// depends on what other threads sent and received.
#[verifier::external_body]
fn receive_value<T>(receiver: &flume::Receiver<T>) -> (result: Received<T>) {
    match receiver.try_recv() {
        Ok(value) => Received::Value(value),
        Err(flume::TryRecvError::Empty) => Received::Nothing,
        Err(flume::TryRecvError::Disconnected) => Received::Over,
    }
}

/// `flume::Receiver::len`: how many values are in the channel at some moment.
#[verifier::external_body]
fn count_values<T>(receiver: &flume::Receiver<T>) -> (result: usize) {
    receiver.len()
}

/// `flume::Sender::len`: how many values are in the channel at some moment.
#[verifier::external_body]
fn count_sent<T>(sender: &flume::Sender<T>) -> (result: usize) {
    sender.len()
}

/// `flume::Receiver::is_full`: whether there is no room in the channel at some moment.
#[verifier::external_body]
fn receives_from_full<T>(receiver: &flume::Receiver<T>) -> (result: bool) {
    receiver.is_full()
}

/// `flume::Sender::is_full`: whether there is no room in the channel at some moment.
#[verifier::external_body]
fn sends_to_full<T>(sender: &flume::Sender<T>) -> (result: bool) {
    sender.is_full()
}

/// `flume::Sender::clone`: the same end once more, which is a handle to the shared channel.
#[verifier::external_body]
fn share_sender<T>(sender: &flume::Sender<T>) -> (result: flume::Sender<T>)
    ensures
        result == *sender,
{
    sender.clone()
}

/// `flume::Receiver::clone`: the same end once more, which is a handle to the shared channel.
#[verifier::external_body]
fn share_receiver<T>(receiver: &flume::Receiver<T>) -> (result: flume::Receiver<T>)
    ensures
        result == *receiver,
{
    receiver.clone()
}

/// Puts values into a channel.
#[verifier::reject_recursive_types(T)]
pub struct EventSender<T>(flume::Sender<T>);

/// Takes values out of a channel.
#[verifier::reject_recursive_types(T)]
pub struct EventReceiver<T>(flume::Receiver<T>);

/// Whether the two are the ends of one channel: one opening of a channel gave both. What is in
/// the channel at some moment is left unsaid: other threads send and receive too.
pub closed spec fn connected<T>(sender: EventSender<T>, receiver: EventReceiver<T>) -> bool {
    call_ensures(open_channel::<T>, (), (sender.0, receiver.0))
}

/// A channel that has room for any number of values.
pub fn unbounded<T>() -> (result: (EventSender<T>, EventReceiver<T>))
    ensures
        connected(result.0, result.1),
{
    let (sender, receiver) = open_channel();
    (EventSender(sender), EventReceiver(receiver))
}

impl<T> EventSender<T> {
    /// The end of the channel.
    pub closed spec fn end(self) -> flume::Sender<T> {
        self.0
    }

    /// Whether handing `value` to the channel can come to `sent`: taken, or given back.
    pub closed spec fn takes(self, value: T, sent: Result<(), T>) -> bool {
        call_ensures(send_value::<T>, (&self.0, value), sent)
    }

    /// Whether counting what is in the channel can give `count`.
    pub closed spec fn counts(self, count: usize) -> bool {
        call_ensures(count_sent::<T>, (&self.0,), count)
    }

    /// Whether asking if there is no room in the channel can give `full`.
    pub closed spec fn fills(self, full: bool) -> bool {
        call_ensures(sends_to_full::<T>, (&self.0,), full)
    }

    /// What is not taken is given back as it was.
    pub proof fn law_given_back(self, value: T, sent: Result<(), T>)
        requires
            self.takes(value, sent),
        ensures
            sent matches Err(back) ==> back == value,
    {
    }

    /// Puts a value into the channel. Fails if nobody is left to receive it: whether somebody
    /// is, the channel tells.
    pub fn send(&self, value: T) -> (result: Result<(), Error>)
        ensures
            exists|sent: Result<(), T>| #[trigger]
                self.takes(value, sent) && result == sending(sent),
    {
        let sent = send_value(&self.0, value);
        assert(self.takes(value, sent));
        answer(sent)
    }

    /// How many values are in the channel.
    pub fn len(&self) -> (result: usize)
        ensures
            self.counts(result),
    {
        count_sent(&self.0)
    }

    /// Whether the channel is empty.
    pub fn is_empty(&self) -> (result: bool)
        ensures
            exists|count: usize| #[trigger] self.counts(count) && result == (count == 0),
    {
        let count: usize = self.len();
        count == 0
    }

    /// Whether there is no room in the channel.
    pub fn is_full(&self) -> (result: bool)
        ensures
            self.fills(result),
    {
        sends_to_full(&self.0)
    }

    /// The end of the channel.
    pub fn inner(&self) -> (result: &flume::Sender<T>)
        ensures
            *result == self.end(),
    {
        &self.0
    }
}

impl<T> Clone for EventSender<T> {
    /// The same end once more.
    fn clone(&self) -> (result: Self)
        ensures
            result == *self,
    {
        EventSender(share_sender(&self.0))
    }
}

/// What it means for the sender that a value was taken, or given back.
pub open spec fn sending<T>(sent: Result<(), T>) -> Result<(), Error> {
    match sent {
        Ok(_) => Ok(()),
        Err(_) => Err(Error::ChannelClosed),
    }
}

/// Tells the sender whether a value was taken. That it was given back is a failure.
pub fn answer<T>(sent: Result<(), T>) -> (result: Result<(), Error>)
    ensures
        result == sending(sent),
{
    match sent {
        Ok(_) => Ok(()),
        Err(_) => Err(Error::ChannelClosed),
    }
}

/// What it means for the receiver that something, or nothing, came out of a channel.
pub open spec fn receiving<T>(received: Received<T>) -> Result<Option<T>, Error> {
    match received {
        Received::Value(value) => Ok(Some(value)),
        Received::Nothing => Ok(None),
        Received::Over => Err(Error::ChannelClosed),
    }
}

/// What came out of a channel, as an answer to whether something did. That nothing can come any
/// more is a failure.
pub fn outcome<T>(received: Received<T>) -> (result: Result<Option<T>, Error>)
    ensures
        result == receiving(received),
{
    match received {
        Received::Value(value) => Ok(Some(value)),
        Received::Nothing => Ok(None),
        Received::Over => Err(Error::ChannelClosed),
    }
}

impl<T> EventReceiver<T> {
    /// The end of the channel.
    pub closed spec fn end(self) -> flume::Receiver<T> {
        self.0
    }

    /// Whether taking something out of the channel can give `received`.
    pub closed spec fn gives(self, received: Received<T>) -> bool {
        call_ensures(receive_value::<T>, (&self.0,), received)
    }

    /// Whether counting what is in the channel can give `count`.
    pub closed spec fn counts(self, count: usize) -> bool {
        call_ensures(count_values::<T>, (&self.0,), count)
    }

    /// Whether asking if there is no room in the channel can give `full`.
    pub closed spec fn fills(self, full: bool) -> bool {
        call_ensures(receives_from_full::<T>, (&self.0,), full)
    }

    /// Takes the first value out of the channel, if there is one. Fails if there is none and
    /// nobody is left to send.
    pub fn recv(&self) -> (result: Result<Option<T>, Error>)
        ensures
            exists|received: Received<T>| #[trigger]
                self.gives(received) && result == receiving(received),
    {
        let received = receive_value(&self.0);
        assert(self.gives(received));
        outcome(received)
    }

    /// Takes the first value out of the channel, if there is one.
    pub fn try_recv(&self) -> (result: Option<T>)
        ensures
            exists|received: Received<T>| #[trigger]
                self.gives(received) && result == (match receiving(received) {
                    Ok(value) => value,
                    Err(_) => None,
                }),
    {
        match self.recv() {
            Ok(value) => value,
            Err(_) => None,
        }
    }

    /// How many values are in the channel.
    pub fn len(&self) -> (result: usize)
        ensures
            self.counts(result),
    {
        count_values(&self.0)
    }

    /// Whether the channel is empty.
    pub fn is_empty(&self) -> (result: bool)
        ensures
            exists|count: usize| #[trigger] self.counts(count) && result == (count == 0),
    {
        let count: usize = self.len();
        count == 0
    }

    /// Whether there is no room in the channel.
    pub fn is_full(&self) -> (result: bool)
        ensures
            self.fills(result),
    {
        receives_from_full(&self.0)
    }

    /// The end of the channel.
    pub fn inner(&self) -> (result: &flume::Receiver<T>)
        ensures
            *result == self.end(),
    {
        &self.0
    }
}

impl<T> Clone for EventReceiver<T> {
    /// The same end once more.
    fn clone(&self) -> (result: Self)
        ensures
            result == *self,
    {
        EventReceiver(share_receiver(&self.0))
    }
}

/// A way in and a way out.
#[verifier::reject_recursive_types(T)]
pub struct Duplex<T> {
    pub sender: EventSender<T>,
    pub receiver: EventReceiver<T>,
}

impl<T> Duplex<T> {
    pub fn new(sender: EventSender<T>, receiver: EventReceiver<T>) -> (result: Self)
        ensures
            result == (Duplex { sender, receiver }),
    {
        Duplex { sender, receiver }
    }

    /// A channel to oneself.
    pub fn unbounded() -> (result: Self)
        ensures
            connected(result.sender, result.receiver),
    {
        let (sender, receiver) = unbounded();
        Duplex { sender, receiver }
    }

    /// Two ends of two channels: what one sends, the other receives.
    pub fn crossing_unbounded() -> (result: (Self, Self))
        ensures
            connected(result.0.sender, result.1.receiver),
            connected(result.1.sender, result.0.receiver),
    {
        let (there, from_here) = unbounded();
        let (back, from_there) = unbounded();
        (
            Duplex { sender: there, receiver: from_there },
            Duplex { sender: back, receiver: from_here },
        )
    }
}

impl<T> Clone for Duplex<T> {
    /// The same two ends once more.
    fn clone(&self) -> (result: Self)
        ensures
            result == *self,
    {
        Duplex { sender: self.sender.clone(), receiver: self.receiver.clone() }
    }
}

/// What comes of sending and receiving: a value that was taken is sent, one that was given back
/// tells that the channel is closed; a value that came is handed out, none is none, and the end
/// of the channel tells that it is closed.
pub proof fn law_outcomes<T>(value: T)
    ensures
        sending(Ok::<(), T>(())) == Ok::<(), Error>(()),
        sending(Err::<(), T>(value)) == Err::<(), Error>(Error::ChannelClosed),
        receiving(Received::Value(value)) == Ok::<Option<T>, Error>(Some(value)),
        receiving(Received::<T>::Nothing) == Ok::<Option<T>, Error>(None),
        receiving(Received::<T>::Over) == Err::<Option<T>, Error>(Error::ChannelClosed),
{
}

} // verus!
