mod storage;
mod table;
mod vm;
mod value;

pub use table::Cursor;
pub use table::Entry;
pub use table::Row;
pub use table::SeekOp;
pub use table::Table;
pub use value::Cmp;
pub use value::Value;
pub use value::ValueS;
pub use value::render_value;
pub use value::value_cmp;
pub use storage::PageData;
pub use storage::Pager;
pub use vm::CmpOp;
pub use vm::Connection;
pub use vm::EngineError;
pub use vm::Opcode;
pub use vm::Program;
pub use vm::RowResult;
pub use vm::Statement;
pub use vm::StepOutcome;
