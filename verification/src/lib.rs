//! Supervision of one mirroring process per attached device.
//!
//! Three cooperating loops keep the set of running mirror processes equal to
//! the set of attached devices: a discovery poller, a process supervisor and an
//! operator command surface. This library holds the decisions of all three as
//! verified, side-effect free functions; running processes, sleeping and
//! reading input are left to the program that drives them.
//!
//! * [`text`]: searching in sequences of characters.
//! * [`device_set`]: the set of attached device identifiers.
//! * [`discovery`]: reading the discovery tool's output, and the poller.
//! * [`command`]: the command register's values, and the two waiting times.
//! * [`shell`]: what one line of operator input asks for.
//! * [`model`]: the supervisor as a mathematical state machine.
//! * [`supervisor`]: the executable supervisor, proved equal to the model.
//! * [`laws`]: what holds of the model for every state and input.
pub mod text;
pub mod device_set;
pub mod command;
pub mod discovery;
pub mod model;
pub mod supervisor;
pub mod shell;
pub mod laws;
