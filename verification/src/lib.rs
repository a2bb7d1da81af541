//! Best-effort metrics emission: named, tagged data points are merged over
//! emitter-level defaults, namespaced, encoded as one JSON object per point,
//! and handed to a lazy, self-healing connection for delivery.

pub mod clock;
pub mod dest;
pub mod emitter;
pub mod http;
pub mod json;
pub mod laws;
pub mod point;
pub mod value;

pub use dest::Destination;
pub use dest::Transport;
pub use emitter::ConnState;
pub use emitter::EmitError;
pub use emitter::EmitPlan;
pub use emitter::Emitter;
pub use point::Point;
pub use point::merge;
pub use value::Value;
pub use value::ValueView;
