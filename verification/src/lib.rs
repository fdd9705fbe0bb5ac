//! Decision logic of a futures pair-trading system: spread bookkeeping,
//! contract selection, order planning for a CTP-style broker, bar
//! numbering of market data, and the validation rules of a Chinese
//! stock-market simulator.
pub mod bars;
pub mod calendar;
pub mod china_stock;
pub mod book;
pub mod expiry;
pub mod keyed;
pub mod live;
pub mod pairs;
pub mod spread;
pub mod text;

