//! Register-level driver for an LS7366-class quadrature-counter peripheral
//! reached over a synchronous serial bus with a chip-select line.
//!
//! Every counter operation is a fixed frame of single-byte transfers:
//! chip select asserted, one command byte, the payload bytes, chip select
//! deasserted.  The driver keeps one piece of derived state, the active
//! counter byte width, and every multi-byte register access is governed
//! by it.

pub mod bus;
pub mod codec;
pub mod driver;

pub use bus::BusTransfer;
pub use bus::ChipSelect;
pub use bus::Error;
pub use bus::PinError;
pub use bus::TransferError;
pub use driver::LS7366;
pub use driver::ASYNCH_INDX;
pub use driver::BW_FLAG;
pub use driver::BYTE_1;
pub use driver::BYTE_2;
pub use driver::BYTE_3;
pub use driver::BYTE_4;
pub use driver::CMP_FLAG;
pub use driver::CY_FLAG;
pub use driver::DISABLE_INDX;
pub use driver::DIS_CNTR;
pub use driver::EN_CNTR;
pub use driver::FILTER_1;
pub use driver::FILTER_2;
pub use driver::FREE_RUN;
pub use driver::IDX_FLAG;
pub use driver::INDX_LOADC;
pub use driver::INDX_LOADO;
pub use driver::INDX_RESETC;
pub use driver::MODULO_N;
pub use driver::NO_FLAGS;
pub use driver::NQUAD;
pub use driver::QUADRX1;
pub use driver::QUADRX2;
pub use driver::QUADRX4;
pub use driver::RANGE_LIMIT;
pub use driver::SINGLE_CYCLE;
pub use driver::SYNCH_INDX;
