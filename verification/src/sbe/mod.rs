//! The wire schema of the engine: enumerations, the flag set, and the
//! byte layouts of every message.
pub mod control_op;
pub mod order_flags;
pub mod order_status;
pub mod order_type;
pub mod side;
pub mod time_in_force;
pub mod wire;
pub mod order_submit_codec;
pub mod order_submit_gtd_codec;
pub mod order_cancel_codec;
pub mod order_amend_codec;
pub mod control_message_codec;
pub mod execution_report_codec;
pub mod public_trade_codec;
pub mod depth_update_codec;
pub mod message_header_codec;
