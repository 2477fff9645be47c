//! Comparison of build execution logs.
//!
//! Two or more runs of the same build each leave a log of the actions they
//! executed. This library loads such logs, indexes every action by the output
//! paths it declares, and reports for an artifact which environment variables,
//! inputs and outputs differ between the runs, either for the artifact alone
//! or for everything reachable from it along mismatched inputs.
//!
//! - `split`, `json`, `decode` and `load` lead from the bytes of a log to its
//!   actions: `load::exec_log_to_hashmap` does it all at once, `load::Loading`
//!   some documents at a time.
//! - `record` holds the actions, `index` the index of a log, `names` the table
//!   of names that the index and the comparison are built on.
//! - `compare` compares the actions of one artifact, `query` finds them in
//!   every log, and `walk` follows the mismatched inputs.
//! - `agreement` states what holds of every comparison.
//! - `hex` renders and reads hashes, and `shell` reads the commands of an
//!   interactive session.

pub mod agreement;
pub mod compare;
pub mod decode;
pub mod hex;
pub mod index;
pub mod json;
pub mod load;
pub mod names;
pub mod query;
pub mod record;
pub mod shell;
pub mod split;
pub mod walk;
