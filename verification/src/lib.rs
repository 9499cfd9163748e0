//! Verified core of a small AI-oriented unikernel: the log ring buffer,
//! the physical frame allocator, the page-table editor, the cooperative
//! task table, the length-prefixed message framing and the MCP request
//! dispatcher.

pub mod logging;
pub mod frames;
pub mod transport;
pub mod paging;
pub mod tasks;
pub mod ai_runtime;
pub mod ai_stub;
pub mod serial_stub;
pub mod mcp_server;
pub mod virtio;
pub mod stack;
