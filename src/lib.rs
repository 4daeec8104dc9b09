//! A verified codec for replay files: a versioned header, an initial state,
//! and a sequence of frame records whose checkpoints are deduplicated block by
//! block before byte compression.
use vstd::prelude::*;

pub mod blockindex;
pub mod clock;
pub mod compress;
pub mod le;
pub mod lemmas;
pub mod msgpack;
pub mod rply;
pub mod statestream;

pub use clock::{count, counts, stats, time, Counter, Stopwatch, Tallies, Timer, Times};
pub use rply::{
    decode, encode, read_header, write_header, Compression, Encoding, Frame, FrameToken, Header,
    HeaderBase, HeaderV2, InputData, IoErrorKind, KeyData, ReplayDecoder, ReplayEncoder,
    ReplayError, HEADERV2_LEN_BYTES, MAGIC,
};
pub use statestream::{Ctx, ParseState, SSError, SSToken};
