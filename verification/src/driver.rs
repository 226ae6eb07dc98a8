//! The counter driver: command framing over the bus and the derived byte
//! width.
//!
//! Every operation is one transaction: chip select driven low, the
//! command byte sent, the payload bytes sent or read, chip select driven
//! high.  The driver keeps ghost logs of every byte moved and every
//! chip-select edge, and the contracts state the exact frame of each
//! operation over them.

use vstd::prelude::*;

use crate::bus::BusTransfer;
use crate::bus::ChipSelect;
use crate::bus::Error;
use crate::codec::be_decode;
use crate::codec::be_encode;
use crate::codec::sign_extend;

verus! {

/// Command byte: clear Mode Register 0.
pub const CMD_CLEAR_MDR0: u8 = 0x08;

/// Command byte: clear Mode Register 1.
pub const CMD_CLEAR_MDR1: u8 = 0x10;

/// Command byte: clear the counter.
pub const CMD_CLEAR_CNTR: u8 = 0x20;

/// Command byte: clear the status register.
pub const CMD_CLEAR_STR: u8 = 0x30;

/// Command byte: read Mode Register 0.
pub const CMD_READ_MDR0: u8 = 0x48;

/// Command byte: read Mode Register 1.
pub const CMD_READ_MDR1: u8 = 0x50;

/// Command byte: read the counter.
pub const CMD_READ_CNTR: u8 = 0x60;

/// Command byte: read the output transfer register.
pub const CMD_READ_OTR: u8 = 0x68;

/// Command byte: read the status register.
pub const CMD_READ_STR: u8 = 0x70;

/// Command byte: write Mode Register 0.
pub const CMD_WRITE_MDR0: u8 = 0x88;

/// Command byte: write Mode Register 1.
pub const CMD_WRITE_MDR1: u8 = 0x90;

/// Command byte: write the data register.
pub const CMD_WRITE_DTR: u8 = 0x98;

/// Command byte: load the data register into the counter.
pub const CMD_LOAD_CNTR: u8 = 0xE0;

/// Command byte: latch the counter into the output transfer register.
pub const CMD_LOAD_OTR: u8 = 0xE8;

/// Mode Register 0: non-quadrature count mode.
pub const NQUAD: u8 = 0x00;

/// Mode Register 0: 1x quadrature count mode.
pub const QUADRX1: u8 = 0x01;

/// Mode Register 0: 2x quadrature count mode.
pub const QUADRX2: u8 = 0x02;

/// Mode Register 0: 4x quadrature count mode.
pub const QUADRX4: u8 = 0x03;

/// Mode Register 0: free-running count range.
pub const FREE_RUN: u8 = 0x00;

/// Mode Register 0: single-cycle count range.
pub const SINGLE_CYCLE: u8 = 0x04;

/// Mode Register 0: range-limit count range.
pub const RANGE_LIMIT: u8 = 0x08;

/// Mode Register 0: modulo-N count range.
pub const MODULO_N: u8 = 0x0C;

/// Mode Register 0: index disabled.
pub const DISABLE_INDX: u8 = 0x00;

/// Mode Register 0: index loads the counter.
pub const INDX_LOADC: u8 = 0x10;

/// Mode Register 0: index resets the counter.
pub const INDX_RESETC: u8 = 0x20;

/// Mode Register 0: index loads the output register.
pub const INDX_LOADO: u8 = 0x30;

/// Mode Register 0: asynchronous index.
pub const ASYNCH_INDX: u8 = 0x00;

/// Mode Register 0: synchronous index.
pub const SYNCH_INDX: u8 = 0x40;

/// Mode Register 0: filter clock division factor 1.
pub const FILTER_1: u8 = 0x00;

/// Mode Register 0: filter clock division factor 2.
pub const FILTER_2: u8 = 0x80;

/// Flag bits: none.
pub const NO_FLAGS: u8 = 0x00;

/// Flag bit: index.
pub const IDX_FLAG: u8 = 0x10;

/// Flag bit: compare.
pub const CMP_FLAG: u8 = 0x20;

/// Flag bit: borrow.
pub const BW_FLAG: u8 = 0x40;

/// Flag bit: carry.
pub const CY_FLAG: u8 = 0x80;

/// Mode Register 1: counting enabled.
pub const EN_CNTR: u8 = 0x00;

/// Mode Register 1: counting disabled.
pub const DIS_CNTR: u8 = 0x04;

/// Mode Register 1: four-byte counter width.
pub const BYTE_4: u8 = 0x00;

/// Mode Register 1: three-byte counter width.
pub const BYTE_3: u8 = 0x01;

/// Mode Register 1: two-byte counter width.
pub const BYTE_2: u8 = 0x02;

/// Mode Register 1: one-byte counter width.
pub const BYTE_1: u8 = 0x03;

/// The all-zero dummy payload of a multi-byte read frame.
pub open spec fn dummies(n: int) -> Seq<u8> {
    Seq::new(n as nat, |i: int| 0u8)
}

/// One call the driver made on a collaborator, in wire order: a
/// chip-select edge or a byte transfer, successful or failed.
pub enum Event {
    /// Chip select successfully driven low.
    Select,
    /// A failed attempt to drive chip select low.
    SelectFailed,
    /// One completed byte transfer: the byte sent, the byte read back.
    Transfer(u8, u8),
    /// A failed attempt to transfer the given byte.
    TransferFailed(u8),
    /// Chip select successfully driven high.
    Deselect,
    /// A failed attempt to drive chip select high.
    DeselectFailed,
}

/// The completed transfer events that send `frame` and read back
/// `replies`, in order.
pub open spec fn transfer_events(frame: Seq<u8>, replies: Seq<u8>) -> Seq<Event> {
    Seq::new(frame.len(), |i: int| Event::Transfer(frame[i], replies[i]))
}

/// The bytes sent in the given events: one per completed transfer, in
/// order.
pub open spec fn sent_of(events: Seq<Event>) -> Seq<u8>
    decreases events.len(),
{
    if events.len() == 0 {
        Seq::empty()
    } else {
        sent_of(events.drop_last()) + (match events.last() {
            Event::Transfer(byte, _) => seq![byte],
            _ => Seq::<u8>::empty(),
        })
    }
}

/// The bytes read back in the given events: one per completed transfer,
/// in order.
pub open spec fn received_of(events: Seq<Event>) -> Seq<u8>
    decreases events.len(),
{
    if events.len() == 0 {
        Seq::empty()
    } else {
        received_of(events.drop_last()) + (match events.last() {
            Event::Transfer(_, reply) => seq![reply],
            _ => Seq::<u8>::empty(),
        })
    }
}

/// How many times the given events assert chip select.
pub open spec fn selects_of(events: Seq<Event>) -> nat
    decreases events.len(),
{
    if events.len() == 0 {
        0
    } else {
        selects_of(events.drop_last()) + (if events.last() == Event::Select {
            1nat
        } else {
            0nat
        })
    }
}

/// How many times the given events deassert chip select.
pub open spec fn deselects_of(events: Seq<Event>) -> nat
    decreases events.len(),
{
    if events.len() == 0 {
        0
    } else {
        deselects_of(events.drop_last()) + (if events.last() == Event::Deselect {
            1nat
        } else {
            0nat
        })
    }
}

/// Appending one event extends each derived view by exactly that event's
/// contribution.
proof fn lemma_views_push(events: Seq<Event>, e: Event)
    ensures
        sent_of(events.push(e)) == sent_of(events) + (match e {
            Event::Transfer(byte, _) => seq![byte],
            _ => Seq::<u8>::empty(),
        }),
        received_of(events.push(e)) == received_of(events) + (match e {
            Event::Transfer(_, reply) => seq![reply],
            _ => Seq::<u8>::empty(),
        }),
        selects_of(events.push(e)) == selects_of(events) + (if e == Event::Select {
            1nat
        } else {
            0nat
        }),
        deselects_of(events.push(e)) == deselects_of(events) + (if e == Event::Deselect {
            1nat
        } else {
            0nat
        }),
{
    assert(events.push(e).drop_last() =~= events);
    assert(events.push(e).last() == e);
}

/// An LS7366-class quadrature-counter peripheral on a serial bus.
///
/// Owns the transport and the chip-select line, and carries the one piece
/// of derived state: the active counter byte width, in 1..=4, set only by
/// writing Mode Register 1.
pub struct LS7366<SPI, CSPIN> {
    spi_bus: SPI,
    chip_select: CSPIN,
    datawidth: u8,
    event_log: Ghost<Seq<Event>>,
}

impl<SPI: BusTransfer, CSPIN: ChipSelect> LS7366<SPI, CSPIN> {
    /// The active counter byte width.
    pub closed spec fn width(&self) -> u8 {
        self.datawidth
    }

    /// Every call the driver has made on its collaborators, in order.
    pub closed spec fn events(&self) -> Seq<Event> {
        self.event_log@
    }

    /// The bytes the driver has sent on the bus: every byte handed to a
    /// transfer that completed, oldest first.
    pub open spec fn sent(&self) -> Seq<u8> {
        sent_of(self.events())
    }

    /// The bytes the driver has read back from the bus, one per sent
    /// byte.
    pub open spec fn received(&self) -> Seq<u8> {
        received_of(self.events())
    }

    /// How many times the driver has asserted chip select.
    pub open spec fn selects(&self) -> nat {
        selects_of(self.events())
    }

    /// How many times the driver has deasserted chip select.
    pub open spec fn deselects(&self) -> nat {
        deselects_of(self.events())
    }

    /// The driver's invariant: the active byte width is in 1..=4.
    pub open spec fn wf(&self) -> bool {
        1 <= self.width() <= 4
    }

    /// A completed transaction, in wire order: chip select asserted,
    /// then exactly the `frame` bytes transferred one by one, then chip
    /// select deasserted — and nothing else.
    pub open spec fn completed(pre: Self, post: Self, frame: Seq<u8>) -> bool {
        &&& post.events() =~= pre.events() + seq![Event::Select] + transfer_events(
            frame,
            post.received().skip(pre.received().len() as int),
        ) + seq![Event::Deselect]
        &&& post.sent() =~= pre.sent() + frame
        &&& post.received().len() == pre.received().len() + frame.len()
        &&& pre.received().is_prefix_of(post.received())
        &&& post.selects() == pre.selects() + 1
        &&& post.deselects() == pre.deselects() + 1
    }

    /// All but the last event of a transaction cut short at byte `n` of
    /// `frame`, in wire order: chip select asserted, the first `n` bytes
    /// transferred, then the failed transfer of byte `n`.
    pub open spec fn aborted_at(pre: Self, post: Self, frame: Seq<u8>, n: int) -> bool {
        &&& 0 <= n < frame.len()
        &&& post.sent() =~= pre.sent() + frame.take(n)
        &&& post.received().len() == pre.received().len() + n
        &&& post.events().drop_last() =~= pre.events() + seq![Event::Select] + transfer_events(
            frame.take(n),
            post.received().skip(pre.received().len() as int),
        ) + seq![Event::TransferFailed(frame[n])]
    }

    /// A transaction cut short when a byte of `frame` would not
    /// transfer: chip select asserted, a proper prefix of the frame
    /// transferred, the failed transfer, then the deassertion attempt —
    /// always made, though it may itself fail.
    pub open spec fn aborted(pre: Self, post: Self, frame: Seq<u8>) -> bool {
        &&& exists|n: int| #[trigger] Self::aborted_at(pre, post, frame, n)
        &&& post.events().last() == Event::Deselect || post.events().last()
            == Event::DeselectFailed
        &&& (post.events().last() == Event::Deselect <==> post.deselects() == pre.deselects()
            + 1)
        &&& pre.received().is_prefix_of(post.received())
        &&& post.selects() == pre.selects() + 1
        &&& pre.deselects() <= post.deselects() <= pre.deselects() + 1
    }

    /// A transaction that never started: the attempt to assert chip
    /// select failed, and nothing else was tried.
    pub open spec fn select_refused(pre: Self, post: Self) -> bool {
        &&& post.events() == pre.events().push(Event::SelectFailed)
        &&& post.sent() == pre.sent()
        &&& post.received() == pre.received()
        &&& post.selects() == pre.selects()
        &&& post.deselects() == pre.deselects()
    }

    /// A transaction whose frame went out in full, in wire order, but
    /// whose closing deassertion failed: chip select is still asserted.
    pub open spec fn left_selected(pre: Self, post: Self, frame: Seq<u8>) -> bool {
        &&& post.events() =~= pre.events() + seq![Event::Select] + transfer_events(
            frame,
            post.received().skip(pre.received().len() as int),
        ) + seq![Event::DeselectFailed]
        &&& post.sent() =~= pre.sent() + frame
        &&& post.received().len() == pre.received().len() + frame.len()
        &&& pre.received().is_prefix_of(post.received())
        &&& post.selects() == pre.selects() + 1
        &&& post.deselects() == pre.deselects()
    }

    /// The outcome every transaction of the given frame has: completed on
    /// success, and one of the three failure shapes otherwise, each
    /// tagged with its error.
    pub open spec fn transacted<T>(pre: Self, post: Self, frame: Seq<u8>, r: Result<
        T,
        Error,
    >) -> bool {
        &&& r is Ok ==> Self::completed(pre, post, frame)
        &&& r == Err::<T, Error>(Error::TransportFailure) ==> Self::aborted(pre, post, frame)
        &&& r == Err::<T, Error>(Error::PinFailure) ==> Self::select_refused(pre, post)
            || Self::left_selected(pre, post, frame)
        &&& r is Err ==> r == Err::<T, Error>(Error::TransportFailure) || r == Err::<T, Error>(
            Error::PinFailure,
        )
    }

    /// Every completed operation runs in wire order: chip select
    /// asserted exactly once and first, then the documented command byte
    /// and payload one transfer at a time, then chip select deasserted
    /// exactly once and last — nothing before, between, or after.
    pub proof fn lemma_completed_framing(pre: Self, post: Self, frame: Seq<u8>)
        requires
            Self::completed(pre, post, frame),
            frame.len() > 0,
        ensures
            post.selects() == pre.selects() + 1,
            post.deselects() == pre.deselects() + 1,
            post.sent().len() == pre.sent().len() + frame.len(),
            post.sent()[pre.sent().len() as int] == frame[0],
            post.events().len() == pre.events().len() + frame.len() + 2,
            post.events()[pre.events().len() as int] == Event::Select,
            post.events().last() == Event::Deselect,
            forall|i: int|
                0 <= i < frame.len() ==> #[trigger] post.events()[pre.events().len() + 1 + i]
                    == Event::Transfer(frame[i], post.received()[pre.received().len() + i]),
    {
        assert forall|i: int| 0 <= i < frame.len() implies #[trigger] post.events()[pre.events().len()
            + 1 + i] == Event::Transfer(
            frame[i],
            post.received()[pre.received().len() + i],
        ) by {
            let replies: Seq<u8> = post.received().skip(pre.received().len() as int);
            assert(post.events()[pre.events().len() + 1 + i] == transfer_events(
                frame,
                replies,
            )[i]);
            assert(replies[i] == post.received()[pre.received().len() + i]);
        }
    }

    /// Even an operation cut short by a transfer failure asserted chip
    /// select exactly once and first, sent nothing before its documented
    /// command byte, and made the closing deassertion attempt as its
    /// last call.
    pub proof fn lemma_aborted_framing(pre: Self, post: Self, frame: Seq<u8>)
        requires
            Self::aborted(pre, post, frame),
        ensures
            post.selects() == pre.selects() + 1,
            pre.deselects() <= post.deselects() <= pre.deselects() + 1,
            post.sent().len() > pre.sent().len() ==> post.sent()[pre.sent().len() as int]
                == frame[0],
            post.events().len() > pre.events().len() + 1,
            post.events()[pre.events().len() as int] == Event::Select,
            post.events().last() == Event::Deselect || post.events().last()
                == Event::DeselectFailed,
    {
        let n: int = choose|n: int| #[trigger] Self::aborted_at(pre, post, frame, n);
        if post.sent().len() > pre.sent().len() {
            assert(post.sent()[pre.sent().len() as int] == frame.take(n)[0]);
        }
        assert(post.events().drop_last().len() == pre.events().len() + n + 2);
        assert(post.events()[pre.events().len() as int] == post.events().drop_last()[pre.events().len() as int]);
    }

    /// Builds a driver around an initialized transport and chip-select
    /// line; the byte width starts at the device's power-on default of
    /// four.  No bus traffic happens here.
    pub fn new(spi_bus: SPI, chip_select: CSPIN) -> (r: Self)
        ensures
            r.wf(),
            r.width() == 4,
            r.events() == Seq::<Event>::empty(),
            r.sent() == Seq::<u8>::empty(),
            r.received() == Seq::<u8>::empty(),
            r.selects() == 0,
            r.deselects() == 0,
    {
        let datawidth: u8 = 4;
        Self { spi_bus, chip_select, datawidth, event_log: Ghost(Seq::empty()) }
    }

    /// Asserts chip select, logging the attempt and its outcome.
    fn select(&mut self) -> (r: Result<(), Error>)
        ensures
            final(self).width() == old(self).width(),
            final(self).sent() == old(self).sent(),
            final(self).received() == old(self).received(),
            final(self).deselects() == old(self).deselects(),
            r is Ok ==> final(self).events() == old(self).events().push(Event::Select)
                && final(self).selects() == old(self).selects() + 1,
            r is Err ==> r == Err::<(), Error>(Error::PinFailure) && final(self).events()
                == old(self).events().push(Event::SelectFailed) && final(self).selects() == old(
                self,
            ).selects(),
    {
        let r = match self.chip_select.set_low() {
            Ok(_) => {
                self.event_log = Ghost(self.event_log@.push(Event::Select));
                Ok(())
            },
            Err(_) => {
                self.event_log = Ghost(self.event_log@.push(Event::SelectFailed));
                Err(Error::PinFailure)
            },
        };
        proof {
            lemma_views_push(old(self).events(), self.events().last());
            assert(self.events().drop_last() =~= old(self).events());
            assert(old(self).sent() + Seq::<u8>::empty() =~= old(self).sent());
            assert(old(self).received() + Seq::<u8>::empty() =~= old(self).received());
        }
        r
    }

    /// Deasserts chip select, logging the attempt and its outcome.
    fn deselect(&mut self) -> (r: Result<(), Error>)
        ensures
            final(self).width() == old(self).width(),
            final(self).sent() == old(self).sent(),
            final(self).received() == old(self).received(),
            final(self).selects() == old(self).selects(),
            r is Ok ==> final(self).events() == old(self).events().push(Event::Deselect)
                && final(self).deselects() == old(self).deselects() + 1,
            r is Err ==> r == Err::<(), Error>(Error::PinFailure) && final(self).events()
                == old(self).events().push(Event::DeselectFailed) && final(self).deselects()
                == old(self).deselects(),
    {
        let r = match self.chip_select.set_high() {
            Ok(_) => {
                self.event_log = Ghost(self.event_log@.push(Event::Deselect));
                Ok(())
            },
            Err(_) => {
                self.event_log = Ghost(self.event_log@.push(Event::DeselectFailed));
                Err(Error::PinFailure)
            },
        };
        proof {
            lemma_views_push(old(self).events(), self.events().last());
            assert(self.events().drop_last() =~= old(self).events());
            assert(old(self).sent() + Seq::<u8>::empty() =~= old(self).sent());
            assert(old(self).received() + Seq::<u8>::empty() =~= old(self).received());
        }
        r
    }

    /// Transfers one byte on the bus, logging the attempt, the byte out
    /// and the byte back.
    fn transfer_byte(&mut self, byte: u8) -> (r: Result<u8, Error>)
        ensures
            final(self).width() == old(self).width(),
            final(self).selects() == old(self).selects(),
            final(self).deselects() == old(self).deselects(),
            r matches Ok(reply) ==> final(self).events() == old(self).events().push(
                Event::Transfer(byte, reply),
            ) && final(self).sent() == old(self).sent().push(byte) && final(self).received()
                == old(self).received().push(reply),
            r is Err ==> r == Err::<u8, Error>(Error::TransportFailure) && final(self).events()
                == old(self).events().push(Event::TransferFailed(byte)) && final(self).sent()
                == old(self).sent() && final(self).received() == old(self).received(),
    {
        let r = match self.spi_bus.transfer(byte) {
            Ok(reply) => {
                self.event_log = Ghost(self.event_log@.push(Event::Transfer(byte, reply)));
                Ok(reply)
            },
            Err(_) => {
                self.event_log = Ghost(self.event_log@.push(Event::TransferFailed(byte)));
                Err(Error::TransportFailure)
            },
        };
        proof {
            lemma_views_push(old(self).events(), self.events().last());
            assert(self.events().drop_last() =~= old(self).events());
            if r is Ok {
                assert(old(self).sent() + seq![byte] =~= old(self).sent().push(byte));
                assert(old(self).received() + seq![r->Ok_0] =~= old(self).received().push(
                    r->Ok_0,
                ));
            } else {
                assert(old(self).sent() + Seq::<u8>::empty() =~= old(self).sent());
                assert(old(self).received() + Seq::<u8>::empty() =~= old(self).received());
            }
        }
        r
    }

    /// One complete transaction of a single command byte and no payload.
    fn command(&mut self, cmd: u8) -> (r: Result<(), Error>)
        ensures
            final(self).width() == old(self).width(),
            Self::transacted(*old(self), *final(self), seq![cmd], r),
    {
        if self.select().is_err() {
            return Err(Error::PinFailure);
        }
        if self.transfer_byte(cmd).is_err() {
            let _ = self.deselect();
            proof {
                assert(self.sent() =~= old(self).sent() + seq![cmd].take(0));
                assert(self.events().drop_last() =~= old(self).events() + seq![Event::Select]
                    + transfer_events(
                    seq![cmd].take(0),
                    self.received().skip(old(self).received().len() as int),
                ) + seq![Event::TransferFailed(cmd)]);
                assert(Self::aborted_at(*old(self), *self, seq![cmd], 0));
            }
            return Err(Error::TransportFailure);
        }
        proof {
            assert(self.sent() =~= old(self).sent() + seq![cmd]);
            assert(self.events() =~= old(self).events() + seq![Event::Select]
                + transfer_events(
                seq![cmd],
                self.received().skip(old(self).received().len() as int),
            ));
        }
        if self.deselect().is_err() {
            return Err(Error::PinFailure);
        }
        Ok(())
    }

    /// One complete transaction that reads a single-byte register: the
    /// command byte, then one dummy byte whose reply is the value.
    fn read_register_byte(&mut self, cmd: u8) -> (r: Result<u8, Error>)
        ensures
            final(self).width() == old(self).width(),
            Self::transacted(*old(self), *final(self), seq![cmd, 0u8], r),
            r matches Ok(data) ==> data == final(self).received().last(),
    {
        if self.select().is_err() {
            return Err(Error::PinFailure);
        }
        if self.transfer_byte(cmd).is_err() {
            let _ = self.deselect();
            proof {
                assert(self.sent() =~= old(self).sent() + seq![cmd, 0u8].take(0));
                assert(self.events().drop_last() =~= old(self).events() + seq![Event::Select]
                    + transfer_events(
                    seq![cmd, 0u8].take(0),
                    self.received().skip(old(self).received().len() as int),
                ) + seq![Event::TransferFailed(cmd)]);
                assert(Self::aborted_at(*old(self), *self, seq![cmd, 0u8], 0));
            }
            return Err(Error::TransportFailure);
        }
        let data: u8 = match self.transfer_byte(0x00) {
            Ok(reply) => reply,
            Err(_) => {
                let _ = self.deselect();
                proof {
                    assert(self.sent() =~= old(self).sent() + seq![cmd, 0u8].take(1));
                    assert(old(self).received().is_prefix_of(self.received()));
                    assert(self.events().drop_last() =~= old(self).events()
                        + seq![Event::Select] + transfer_events(
                        seq![cmd, 0u8].take(1),
                        self.received().skip(old(self).received().len() as int),
                    ) + seq![Event::TransferFailed(0u8)]);
                    assert(Self::aborted_at(*old(self), *self, seq![cmd, 0u8], 1));
                }
                return Err(Error::TransportFailure);
            },
        };
        proof {
            assert(self.sent() =~= old(self).sent() + seq![cmd, 0u8]);
            assert(old(self).received().is_prefix_of(self.received()));
            assert(self.events() =~= old(self).events() + seq![Event::Select]
                + transfer_events(
                seq![cmd, 0u8],
                self.received().skip(old(self).received().len() as int),
            ));
        }
        if self.deselect().is_err() {
            return Err(Error::PinFailure);
        }
        Ok(data)
    }

    /// One complete transaction that writes a single-byte register: the
    /// command byte, then the value.
    fn write_register_byte(&mut self, cmd: u8, value: u8) -> (r: Result<(), Error>)
        ensures
            final(self).width() == old(self).width(),
            Self::transacted(*old(self), *final(self), seq![cmd, value], r),
    {
        if self.select().is_err() {
            return Err(Error::PinFailure);
        }
        if self.transfer_byte(cmd).is_err() {
            let _ = self.deselect();
            proof {
                assert(self.sent() =~= old(self).sent() + seq![cmd, value].take(0));
                assert(self.events().drop_last() =~= old(self).events() + seq![Event::Select]
                    + transfer_events(
                    seq![cmd, value].take(0),
                    self.received().skip(old(self).received().len() as int),
                ) + seq![Event::TransferFailed(cmd)]);
                assert(Self::aborted_at(*old(self), *self, seq![cmd, value], 0));
            }
            return Err(Error::TransportFailure);
        }
        if self.transfer_byte(value).is_err() {
            let _ = self.deselect();
            proof {
                assert(self.sent() =~= old(self).sent() + seq![cmd, value].take(1));
                assert(old(self).received().is_prefix_of(self.received()));
                assert(self.events().drop_last() =~= old(self).events() + seq![Event::Select]
                    + transfer_events(
                    seq![cmd, value].take(1),
                    self.received().skip(old(self).received().len() as int),
                ) + seq![Event::TransferFailed(value)]);
                assert(Self::aborted_at(*old(self), *self, seq![cmd, value], 1));
            }
            return Err(Error::TransportFailure);
        }
        proof {
            assert(self.sent() =~= old(self).sent() + seq![cmd, value]);
            assert(old(self).received().is_prefix_of(self.received()));
            assert(self.events() =~= old(self).events() + seq![Event::Select]
                + transfer_events(
                seq![cmd, value],
                self.received().skip(old(self).received().len() as int),
            ));
        }
        if self.deselect().is_err() {
            return Err(Error::PinFailure);
        }
        Ok(())
    }

    /// One complete transaction that reads a multi-byte register: the
    /// command byte, then one dummy byte per byte of the active width,
    /// the replies accumulated big-endian into a 32-bit value.
    fn read_register_wide(&mut self, cmd: u8) -> (r: Result<u32, Error>)
        ensures
            final(self).width() == old(self).width(),
            Self::transacted(
                *old(self),
                *final(self),
                seq![cmd] + dummies(old(self).width() as int),
                r,
            ),
            r matches Ok(v) ==> v == be_decode(
                final(self).received().skip(old(self).received().len() as int + 1),
            ),
    {
        let w: u8 = self.datawidth;
        let mut count: u32 = 0;
        if self.select().is_err() {
            return Err(Error::PinFailure);
        }
        if self.transfer_byte(cmd).is_err() {
            let _ = self.deselect();
            proof {
                assert(self.sent() =~= old(self).sent() + (seq![cmd] + dummies(w as int)).take(
                    0,
                ));
                assert(self.events().drop_last() =~= old(self).events() + seq![Event::Select]
                    + transfer_events(
                    (seq![cmd] + dummies(w as int)).take(0),
                    self.received().skip(old(self).received().len() as int),
                ) + seq![Event::TransferFailed(cmd)]);
                assert(Self::aborted_at(*old(self), *self, seq![cmd] + dummies(w as int), 0));
            }
            return Err(Error::TransportFailure);
        }
        proof {
            assert(self.sent() =~= old(self).sent() + seq![cmd] + dummies(0));
            assert(self.received().skip(old(self).received().len() as int + 1)
                =~= Seq::<u8>::empty());
            assert(self.events() =~= old(self).events() + seq![Event::Select]
                + transfer_events(
                seq![cmd] + dummies(0),
                self.received().skip(old(self).received().len() as int),
            ));
        }
        let mut i: u8 = 0;
        while i < w
            invariant
                i <= w,
                w == self.datawidth,
                self.datawidth == old(self).datawidth,
                self.selects() == old(self).selects() + 1,
                self.deselects() == old(self).deselects(),
                self.sent() =~= old(self).sent() + seq![cmd] + dummies(i as int),
                self.received().len() == old(self).received().len() + i + 1,
                old(self).received().is_prefix_of(self.received()),
                count == be_decode(
                    self.received().skip(old(self).received().len() as int + 1),
                ),
                self.events() =~= old(self).events() + seq![Event::Select] + transfer_events(
                    seq![cmd] + dummies(i as int),
                    self.received().skip(old(self).received().len() as int),
                ),
            decreases w - i,
        {
            let ghost prev_recv: Seq<u8> = self.received();
            match self.transfer_byte(0x00) {
                Ok(data) => {
                    count = (count << 8u32) | (data as u32);
                    proof {
                        let base: int = old(self).received().len() as int + 1;
                        let s: Seq<u8> = prev_recv.skip(base);
                        assert(self.received() == prev_recv.push(data));
                        assert(self.received().skip(base) =~= s.push(data));
                        assert(s.push(data).drop_last() =~= s);
                        assert(be_decode(s.push(data)) == (be_decode(s) << 8u32) | (
                        data as u32));
                        assert(self.sent() =~= old(self).sent() + seq![cmd] + dummies(
                            i as int + 1,
                        ));
                        assert(old(self).received().is_prefix_of(self.received()));
                        assert(self.received().skip(old(self).received().len() as int)
                            =~= prev_recv.skip(old(self).received().len() as int).push(data));
                        assert(self.events() =~= old(self).events() + seq![Event::Select]
                            + transfer_events(
                            seq![cmd] + dummies(i as int + 1),
                            self.received().skip(old(self).received().len() as int),
                        ));
                    }
                    i = i + 1;
                },
                Err(_) => {
                    let _ = self.deselect();
                    proof {
                        assert(self.sent() =~= old(self).sent() + (seq![cmd] + dummies(
                            w as int,
                        )).take(i as int + 1));
                        assert((seq![cmd] + dummies(w as int))[i as int + 1] == 0u8);
                        assert(self.events().drop_last() =~= old(self).events()
                            + seq![Event::Select] + transfer_events(
                            (seq![cmd] + dummies(w as int)).take(i as int + 1),
                            self.received().skip(old(self).received().len() as int),
                        ) + seq![Event::TransferFailed(
                            (seq![cmd] + dummies(w as int))[i as int + 1],
                        )]);
                        assert(Self::aborted_at(
                            *old(self),
                            *self,
                            seq![cmd] + dummies(w as int),
                            i as int + 1,
                        ));
                    }
                    return Err(Error::TransportFailure);
                },
            }
        }
        proof {
            assert(self.sent() =~= old(self).sent() + (seq![cmd] + dummies(w as int)));
            assert(self.events() =~= old(self).events() + seq![Event::Select]
                + transfer_events(
                seq![cmd] + dummies(w as int),
                self.received().skip(old(self).received().len() as int),
            ));
        }
        if self.deselect().is_err() {
            return Err(Error::PinFailure);
        }
        Ok(count)
    }

    /// Reads the counter: the command byte, then exactly one dummy byte
    /// per byte of the active width, the replies accumulated big-endian.
    /// The number of bytes read is governed by the driver's current
    /// width; a mismatch with the on-device setting silently under- or
    /// over-reads.
    pub fn read_counter(&mut self) -> (r: Result<u32, Error>)
        ensures
            final(self).width() == old(self).width(),
            Self::transacted(
                *old(self),
                *final(self),
                seq![CMD_READ_CNTR] + dummies(old(self).width() as int),
                r,
            ),
            r matches Ok(v) ==> v == be_decode(
                final(self).received().skip(old(self).received().len() as int + 1),
            ),
    {
        self.read_register_wide(CMD_READ_CNTR)
    }

    /// Reads the output transfer register, with the same framing and
    /// accumulation as the counter read.
    pub fn read_otr(&mut self) -> (r: Result<u32, Error>)
        ensures
            final(self).width() == old(self).width(),
            Self::transacted(
                *old(self),
                *final(self),
                seq![CMD_READ_OTR] + dummies(old(self).width() as int),
                r,
            ),
            r matches Ok(v) ==> v == be_decode(
                final(self).received().skip(old(self).received().len() as int + 1),
            ),
    {
        self.read_register_wide(CMD_READ_OTR)
    }

    /// Writes the data register: the command byte, then the low
    /// `width()` bytes of `value`, most significant first.  Bytes of
    /// `value` above the active width are silently dropped.
    pub fn write_data_register(&mut self, value: u32) -> (r: Result<(), Error>)
        requires
            old(self).wf(),
        ensures
            final(self).width() == old(self).width(),
            Self::transacted(
                *old(self),
                *final(self),
                seq![CMD_WRITE_DTR] + be_encode(old(self).width() as int, value),
                r,
            ),
    {
        let w: u8 = self.datawidth;
        if self.select().is_err() {
            return Err(Error::PinFailure);
        }
        if self.transfer_byte(CMD_WRITE_DTR).is_err() {
            let _ = self.deselect();
            proof {
                assert(self.sent() =~= old(self).sent() + (seq![CMD_WRITE_DTR] + be_encode(
                    w as int,
                    value,
                )).take(0));
                assert(self.events().drop_last() =~= old(self).events() + seq![Event::Select]
                    + transfer_events(
                    (seq![CMD_WRITE_DTR] + be_encode(w as int, value)).take(0),
                    self.received().skip(old(self).received().len() as int),
                ) + seq![Event::TransferFailed(CMD_WRITE_DTR)]);
                assert(Self::aborted_at(
                    *old(self),
                    *self,
                    seq![CMD_WRITE_DTR] + be_encode(w as int, value),
                    0,
                ));
            }
            return Err(Error::TransportFailure);
        }
        proof {
            assert(self.sent() =~= old(self).sent() + seq![CMD_WRITE_DTR] + be_encode(
                w as int,
                value,
            ).take(0));
            assert(self.events() =~= old(self).events() + seq![Event::Select]
                + transfer_events(
                seq![CMD_WRITE_DTR] + be_encode(w as int, value).take(0),
                self.received().skip(old(self).received().len() as int),
            ));
        }
        let mut i: u8 = 0;
        while i < w
            invariant
                i <= w,
                1 <= w <= 4,
                w == self.datawidth,
                self.datawidth == old(self).datawidth,
                self.selects() == old(self).selects() + 1,
                self.deselects() == old(self).deselects(),
                self.sent() =~= old(self).sent() + seq![CMD_WRITE_DTR] + be_encode(
                    w as int,
                    value,
                ).take(i as int),
                self.received().len() == old(self).received().len() + i + 1,
                old(self).received().is_prefix_of(self.received()),
                self.events() =~= old(self).events() + seq![Event::Select] + transfer_events(
                    seq![CMD_WRITE_DTR] + be_encode(w as int, value).take(i as int),
                    self.received().skip(old(self).received().len() as int),
                ),
            decreases w - i,
        {
            let shift: u32 = 8 * ((w - 1 - i) as u32);
            let byte: u8 = (value >> shift) as u8;
            proof {
                assert(shift == (8 * (w as int - 1 - i as int)) as u32);
                assert(byte == be_encode(w as int, value)[i as int]);
            }
            let ghost prev_recv: Seq<u8> = self.received();
            match self.transfer_byte(byte) {
                Ok(_) => {
                    proof {
                        assert(be_encode(w as int, value).take(i as int + 1) =~= be_encode(
                            w as int,
                            value,
                        ).take(i as int).push(byte));
                        assert(self.sent() =~= old(self).sent() + seq![CMD_WRITE_DTR]
                            + be_encode(w as int, value).take(i as int + 1));
                        assert(old(self).received().is_prefix_of(self.received()));
                        assert(self.received().skip(old(self).received().len() as int)
                            =~= prev_recv.skip(old(self).received().len() as int).push(
                            self.received().last(),
                        ));
                        assert(self.events() =~= old(self).events() + seq![Event::Select]
                            + transfer_events(
                            seq![CMD_WRITE_DTR] + be_encode(w as int, value).take(
                                i as int + 1,
                            ),
                            self.received().skip(old(self).received().len() as int),
                        ));
                    }
                    i = i + 1;
                },
                Err(_) => {
                    let _ = self.deselect();
                    proof {
                        assert(self.sent() =~= old(self).sent() + (seq![CMD_WRITE_DTR]
                            + be_encode(w as int, value)).take(i as int + 1));
                        assert((seq![CMD_WRITE_DTR] + be_encode(w as int, value))[i as int
                            + 1] == byte);
                        assert(self.events().drop_last() =~= old(self).events()
                            + seq![Event::Select] + transfer_events(
                            (seq![CMD_WRITE_DTR] + be_encode(w as int, value)).take(
                                i as int + 1,
                            ),
                            self.received().skip(old(self).received().len() as int),
                        ) + seq![Event::TransferFailed(byte)]);
                        assert(Self::aborted_at(
                            *old(self),
                            *self,
                            seq![CMD_WRITE_DTR] + be_encode(w as int, value),
                            i as int + 1,
                        ));
                    }
                    return Err(Error::TransportFailure);
                },
            }
        }
        proof {
            assert(self.sent() =~= old(self).sent() + (seq![CMD_WRITE_DTR] + be_encode(
                w as int,
                value,
            )));
            assert(be_encode(w as int, value).take(w as int) =~= be_encode(w as int, value));
            assert(self.events() =~= old(self).events() + seq![Event::Select]
                + transfer_events(
                seq![CMD_WRITE_DTR] + be_encode(w as int, value),
                self.received().skip(old(self).received().len() as int),
            ));
        }
        if self.deselect().is_err() {
            return Err(Error::PinFailure);
        }
        Ok(())
    }

    /// Reads Mode Register 0.  One transaction: the command byte, one
    /// dummy byte; returns the register's value.
    pub fn read_mode_register_0(&mut self) -> (r: Result<u8, Error>)
        ensures
            final(self).width() == old(self).width(),
            Self::transacted(*old(self), *final(self), seq![CMD_READ_MDR0, 0u8], r),
            r matches Ok(data) ==> data == final(self).received().last(),
    {
        self.read_register_byte(CMD_READ_MDR0)
    }

    /// Reads Mode Register 1.  One transaction: the command byte, one
    /// dummy byte; returns the register's value.
    pub fn read_mode_register_1(&mut self) -> (r: Result<u8, Error>)
        ensures
            final(self).width() == old(self).width(),
            Self::transacted(*old(self), *final(self), seq![CMD_READ_MDR1, 0u8], r),
            r matches Ok(data) ==> data == final(self).received().last(),
    {
        self.read_register_byte(CMD_READ_MDR1)
    }

    /// Reads the status register.  One transaction: the command byte,
    /// one dummy byte; returns the register's value.
    pub fn read_status_register(&mut self) -> (r: Result<u8, Error>)
        ensures
            final(self).width() == old(self).width(),
            Self::transacted(*old(self), *final(self), seq![CMD_READ_STR, 0u8], r),
            r matches Ok(data) ==> data == final(self).received().last(),
    {
        self.read_register_byte(CMD_READ_STR)
    }

    /// Writes Mode Register 0.  One transaction: the command byte, then
    /// the value; the byte width is unaffected.
    pub fn write_mode_register_0(&mut self, value: u8) -> (r: Result<(), Error>)
        ensures
            final(self).width() == old(self).width(),
            Self::transacted(*old(self), *final(self), seq![CMD_WRITE_MDR0, value], r),
    {
        self.write_register_byte(CMD_WRITE_MDR0, value)
    }

    /// Writes Mode Register 1 and rederives the byte width: after a
    /// successful write the active width is `4 - (value & 0x03)`,
    /// whatever it was before.  This is the only operation that changes
    /// the width.
    pub fn write_mode_register_1(&mut self, value: u8) -> (r: Result<(), Error>)
        ensures
            Self::transacted(*old(self), *final(self), seq![CMD_WRITE_MDR1, value], r),
            r is Ok ==> final(self).width() == 4 - (value & 0x03),
            r is Ok ==> final(self).wf(),
            r is Err ==> final(self).width() == old(self).width(),
    {
        let r = self.write_register_byte(CMD_WRITE_MDR1, value);
        if r.is_ok() {
            proof {
                assert(value & 0x03 <= 3) by (bit_vector);
            }
            self.datawidth = 4 - (value & 0x03);
        }
        r
    }

    /// Clears Mode Register 0.  One transaction, no payload; the byte
    /// width is unaffected.
    pub fn clear_mode_register_0(&mut self) -> (r: Result<(), Error>)
        ensures
            final(self).width() == old(self).width(),
            Self::transacted(*old(self), *final(self), seq![CMD_CLEAR_MDR0], r),
    {
        self.command(CMD_CLEAR_MDR0)
    }

    /// Clears Mode Register 1 on the device.  One transaction, no
    /// payload; the driver's byte width is unaffected.
    pub fn clear_mode_register_1(&mut self) -> (r: Result<(), Error>)
        ensures
            final(self).width() == old(self).width(),
            Self::transacted(*old(self), *final(self), seq![CMD_CLEAR_MDR1], r),
    {
        self.command(CMD_CLEAR_MDR1)
    }

    /// Clears the counter.  One transaction, no payload.
    pub fn clear_counter(&mut self) -> (r: Result<(), Error>)
        ensures
            final(self).width() == old(self).width(),
            Self::transacted(*old(self), *final(self), seq![CMD_CLEAR_CNTR], r),
    {
        self.command(CMD_CLEAR_CNTR)
    }

    /// Clears the status register.  One transaction, no payload.
    pub fn clear_status_register(&mut self) -> (r: Result<(), Error>)
        ensures
            final(self).width() == old(self).width(),
            Self::transacted(*old(self), *final(self), seq![CMD_CLEAR_STR], r),
    {
        self.command(CMD_CLEAR_STR)
    }

    /// Triggers the device to load the data register into the counter.
    /// One transaction, no payload.
    pub fn load_counter(&mut self) -> (r: Result<(), Error>)
        ensures
            final(self).width() == old(self).width(),
            Self::transacted(*old(self), *final(self), seq![CMD_LOAD_CNTR], r),
    {
        self.command(CMD_LOAD_CNTR)
    }

    /// Triggers the device to latch the counter into the output transfer
    /// register.  One transaction, no payload.
    pub fn load_otr(&mut self) -> (r: Result<(), Error>)
        ensures
            final(self).width() == old(self).width(),
            Self::transacted(*old(self), *final(self), seq![CMD_LOAD_OTR], r),
    {
        self.command(CMD_LOAD_OTR)
    }

    /// Reinterprets a counter reading taken at the active byte width as a
    /// sign-extended 32-bit two's-complement value.  Touches no state and
    /// no bus; fails only if the stored width is corrupt.
    pub fn left_extend_msb(&mut self, value: u32) -> (r: Result<u32, Error>)
        ensures
            *final(self) == *old(self),
            old(self).wf() ==> r == Ok::<u32, Error>(
                sign_extend(old(self).width() as int, value),
            ),
            !old(self).wf() ==> r == Err::<u32, Error>(Error::InvalidWidthState),
    {
        if self.datawidth == 4 {
            Ok(value)
        } else {
            match self.datawidth {
                1 => {
                    proof {
                        assert((value >> 7u32) & 1 == 0 || (value >> 7u32) & 1
                            == 1) by (bit_vector);
                    }
                    if (value >> 7u32) & 1 == 0 {
                        Ok(value)
                    } else {
                        Ok(value | 0xFFFFFF00)
                    }
                },
                2 => {
                    proof {
                        assert((value >> 15u32) & 1 == 0 || (value >> 15u32) & 1
                            == 1) by (bit_vector);
                    }
                    if (value >> 15u32) & 1 == 0 {
                        Ok(value)
                    } else {
                        Ok(value | 0xFFFF0000)
                    }
                },
                3 => {
                    proof {
                        assert((value >> 23u32) & 1 == 0 || (value >> 23u32) & 1
                            == 1) by (bit_vector);
                    }
                    if (value >> 23u32) & 1 == 0 {
                        Ok(value)
                    } else {
                        Ok(value | 0xFF000000)
                    }
                },
                _ => Err(Error::InvalidWidthState),
            }
        }
    }
}

} // verus!
