//! The three kinds of bus access the drivers need, and the record the
//! drivers keep of what they do on a bus.
//!
//! The traits carry exactly the calls a driver makes and promise nothing
//! about what comes back: the bytes and levels come from hardware.
//! Implementations forward to a HAL. [`I2cPort`] owns a register bus and
//! records each transaction made through it, with what was handed to the bus
//! and what came back, so that contracts can say which transactions a driver
//! made and how its result follows from their outcome.

use vstd::prelude::*;

verus! {

/// A 7-bit-addressed register bus (I2C).
pub trait RegisterBus {
    type Error;

    /// Writes `write` to the device at `address`.
    fn write(&mut self, address: u8, write: &[u8]) -> Result<(), Self::Error>;

    /// Writes `write`, then reads `read.len()` bytes into `read`, in one
    /// transaction.
    fn write_read(&mut self, address: u8, write: &[u8], read: &mut [u8]) -> Result<(), Self::Error>;
}

/// A chip-selected full-duplex serial device (SPI).
pub trait TransferBus {
    type Error;

    /// Clocks `buf` out and replaces it with the bytes clocked in, in one
    /// transaction.
    fn transfer_in_place(&mut self, buf: &mut [u8]) -> Result<(), Self::Error>;
}

/// A digital input line.
pub trait LevelInput {
    type Error;

    /// Whether the line is low.
    fn is_low(&mut self) -> Result<bool, Self::Error>;
}

/// One transaction on a register bus.
pub enum I2cEvent<E> {
    /// `bytes` written to the device at `address`.
    Write { address: u8, bytes: Seq<u8>, result: Result<(), E> },
    /// `bytes` written to the device at `address`, then `read` read back in
    /// the same transaction.
    WriteRead { address: u8, bytes: Seq<u8>, read: Seq<u8>, result: Result<(), E> },
}

/// One full-duplex transfer: `sent` clocked out, `received` clocked in.
pub struct TransferEvent<E> {
    pub sent: Seq<u8>,
    pub received: Seq<u8>,
    pub result: Result<(), E>,
}

/// A register bus together with the record of the transactions made
/// through it.
pub struct I2cPort<B: RegisterBus> {
    bus: B,
    history: Ghost<Seq<I2cEvent<B::Error>>>,
}

impl<B: RegisterBus> I2cPort<B> {
    /// The transactions made through the port, oldest first.
    pub closed spec fn history(&self) -> Seq<I2cEvent<B::Error>> {
        self.history@
    }

    /// A port on `bus`, with nothing recorded yet.
    pub fn new(bus: B) -> (port: Self)
        ensures
            port.history() == Seq::<I2cEvent<B::Error>>::empty(),
    {
        I2cPort { bus, history: Ghost(Seq::empty()) }
    }

    /// The bus.
    pub fn bus(&self) -> &B {
        &self.bus
    }

    /// Gives the bus back.
    pub fn into_inner(self) -> B {
        self.bus
    }

    /// Writes `write` to the device at `address`, and records it.
    pub fn write(&mut self, address: u8, write: &[u8]) -> (res: Result<(), B::Error>)
        ensures
            final(self).history() == old(self).history().push(
                I2cEvent::Write { address, bytes: write@, result: res },
            ),
    {
        let res = self.bus.write(address, write);
        self.history = Ghost(self.history@.push(I2cEvent::Write { address, bytes: write@, result: res }));
        res
    }

    /// Writes `write`, then reads `N` bytes into `read`, in one transaction,
    /// and records it with the bytes read.
    pub fn write_read<const N: usize>(&mut self, address: u8, write: &[u8], read: &mut [u8; N]) -> (res: Result<(), B::Error>)
        ensures
            final(self).history() == old(self).history().push(
                I2cEvent::WriteRead { address, bytes: write@, read: final(read)@, result: res },
            ),
    {
        let res = self.bus.write_read(address, write, read);
        self.history = Ghost(self.history@.push(I2cEvent::WriteRead { address, bytes: write@, read: read@, result: res }));
        res
    }
}

} // verus!
