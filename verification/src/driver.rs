//! The simulation driver: the engine's state machine and its
//! per-iteration protocol.
//!
//! The driver owns the cell buffer and runs one frame at a time: measure
//! elapsed time, hand the input snapshot to the buffer, invoke the
//! rule's update callback, then commit the frame as a list of positioned
//! writes for the caller's display sink. The caller supplies the clock
//! reading and the key snapshot and performs the actual output, so
//! everything the engine decides is verified here while all input and
//! output stays outside.

use vstd::prelude::*;

use crate::buffer::Utils;
use crate::sink::WriteOp;
use crate::sink::flush_writes_spec;
use crate::sink::lemma_flush_writes_wf;

verus! {

/// The driver's lifecycle. Creation runs the rule's setup exactly once;
/// termination — by the rule's own signal, a close event, or a fatal
/// display error — is final.
#[derive(Copy, Clone, Debug, PartialEq, Eq, Structural)]
pub enum EngineState {
    Uninitialized,
    Created,
    Running,
    Terminated,
}

/// The engine's fatal errors. Out-of-bounds draws are deliberately not
/// here: they are silently ignored, and a rule asking to stop is the
/// normal termination path, not an error.
#[derive(Copy, Clone, Debug, PartialEq, Eq, Structural)]
pub enum EngineError {
    /// Invalid dimensions at construction: a zero width or height, or a
    /// grid too large to index. Fatal before the loop starts.
    ConfigurationError,
    /// An output failure while committing a frame to the display. The
    /// loop cannot safely continue with a partially committed display,
    /// so this is fatal and the caller must stop driving the engine.
    DisplayWriteError,
}

/// A rule: the user-supplied pair of lifecycle callbacks defining one
/// simulation. The engine is agnostic to whatever private state an
/// implementation holds; all a rule may do to the engine is draw into
/// the buffer it is handed, which keeps the buffer well-formed and its
/// dimensions fixed.
pub trait Rules {
    /// Runs exactly once, before the loop; it may perform an initial
    /// full fill. Returns whether the simulation should keep running.
    fn on_user_create(&mut self, utils: &mut Utils) -> (keep_running: bool)
        requires
            old(utils).wf(),
        ensures
            final(utils).wf(),
            final(utils)@.width == old(utils)@.width,
            final(utils)@.height == old(utils)@.height,
    ;

    /// Runs every iteration, after the input snapshot has been captured
    /// into the buffer, with the time elapsed since the previous
    /// iteration in nanoseconds. Returns whether the simulation should
    /// keep running.
    fn on_user_update(&mut self, utils: &mut Utils, elapsed_nanos: u64) -> (keep_running: bool)
        requires
            old(utils).wf(),
        ensures
            final(utils).wf(),
            final(utils)@.width == old(utils)@.width,
            final(utils)@.height == old(utils)@.height,
    ;
}

/// What one frame hands back to the caller: whether the rule wants to
/// keep running, and the minimal list of display writes that commits the
/// frame.
pub struct FrameOutput {
    pub keep_running: bool,
    pub writes: Vec<WriteOp>,
}

/// The engine's configuration: the dimensions of the grid to drive.
pub struct ConsoleGameEngine {
    pub height: usize,
    pub width: usize,
}

impl ConsoleGameEngine {
    /// A configuration for a height-by-width cell display.
    pub fn new(height: usize, width: usize) -> (engine: ConsoleGameEngine)
        ensures
            engine.height == height,
            engine.width == width,
    {
        ConsoleGameEngine { height, width }
    }

    /// Builds the driver for this configuration, with a blank buffer and
    /// the state machine at its start. Returns the configuration error —
    /// fatal before the loop starts — exactly when a dimension is zero
    /// or the grid would not be indexable.
    pub fn into_driver(self) -> (r: Result<SimulationDriver, EngineError>)
        ensures
            r matches Ok(d) ==> {
                &&& d.wf()
                &&& d.state == EngineState::Uninitialized
                &&& d.utils@.width == self.width
                &&& d.utils@.height == self.height
                &&& d.utils@.dirty.len() == 0
                &&& d.prev_time_nanos == 0
            },
            r is Ok <==> self.width > 0 && self.height > 0 && self.width * self.height
                <= usize::MAX,
            r matches Err(e) ==> e == EngineError::ConfigurationError,
    {
        if self.width == 0 || self.height == 0 {
            return Err(EngineError::ConfigurationError);
        }
        match self.width.checked_mul(self.height) {
            Some(_total) => Ok(
                SimulationDriver {
                    state: EngineState::Uninitialized,
                    utils: Utils::new(self.height, self.width),
                    prev_time_nanos: 0,
                },
            ),
            None => Err(EngineError::ConfigurationError),
        }
    }
}

/// The simulation driver: the buffer it owns, where the state machine
/// stands, and the clock reading of the previous iteration.
pub struct SimulationDriver {
    pub state: EngineState,
    pub utils: Utils,
    pub prev_time_nanos: u64,
}

impl SimulationDriver {
    /// The driver is well-formed whenever its buffer is.
    pub open spec fn wf(&self) -> bool {
        self.utils.wf()
    }

    /// Runs the rule's one-time setup. The state machine leaves its
    /// start: it is created on a true return and terminated on a false
    /// one, and the given clock reading seeds the elapsed-time
    /// measurement of the first frame.
    pub fn create<R: Rules>(&mut self, rules: &mut R, now_nanos: u64) -> (keep_running: bool)
        requires
            old(self).wf(),
            old(self).state == EngineState::Uninitialized,
        ensures
            final(self).wf(),
            final(self).utils@.width == old(self).utils@.width,
            final(self).utils@.height == old(self).utils@.height,
            final(self).state == if keep_running {
                EngineState::Created
            } else {
                EngineState::Terminated
            },
            final(self).prev_time_nanos == now_nanos,
    {
        let keep_running = rules.on_user_create(&mut self.utils);
        self.prev_time_nanos = now_nanos;
        self.state = if keep_running {
            EngineState::Created
        } else {
            EngineState::Terminated
        };
        keep_running
    }

    /// Runs one iteration of the loop protocol: measures the time
    /// elapsed since the previous iteration (clamped at zero should the
    /// clock jump backwards), stores the clock reading, records the
    /// input snapshot, invokes the rule's update, and commits the frame.
    /// The returned writes are the committed frame: one write per
    /// coordinate the frame changed, each carrying the cell the buffer
    /// now holds there, no coordinate twice, none out of bounds, and
    /// nothing is left dirty behind them.
    pub fn step<R: Rules>(&mut self, rules: &mut R, now_nanos: u64, keys: Vec<u16>) -> (out:
        FrameOutput)
        requires
            old(self).wf(),
            old(self).state == EngineState::Created || old(self).state == EngineState::Running,
        ensures
            final(self).wf(),
            final(self).utils@.width == old(self).utils@.width,
            final(self).utils@.height == old(self).utils@.height,
            final(self).state == if out.keep_running {
                EngineState::Running
            } else {
                EngineState::Terminated
            },
            final(self).prev_time_nanos == now_nanos,
            final(self).utils@.dirty.len() == 0,
            forall|i: int|
                0 <= i < out.writes@.len() ==> {
                    &&& (#[trigger] out.writes@[i]).x < final(self).utils@.width
                    &&& out.writes@[i].y < final(self).utils@.height
                    &&& out.writes@[i].glyph == final(self).utils@.cell_at(
                        out.writes@[i].x,
                        out.writes@[i].y,
                    ).glyph
                    &&& out.writes@[i].color == final(self).utils@.cell_at(
                        out.writes@[i].x,
                        out.writes@[i].y,
                    ).color
                },
            forall|i: int, j: int|
                0 <= i < j < out.writes@.len() ==> !((#[trigger] out.writes@[i]).x == (
                #[trigger] out.writes@[j]).x && out.writes@[i].y == out.writes@[j].y),
    {
        let elapsed_nanos = if now_nanos >= self.prev_time_nanos {
            now_nanos - self.prev_time_nanos
        } else {
            0
        };
        self.prev_time_nanos = now_nanos;
        self.utils.set_keys(keys);
        let keep_running = rules.on_user_update(&mut self.utils, elapsed_nanos);
        let ghost committed = self.utils@;
        let writes = self.utils.flush();
        proof {
            lemma_flush_writes_wf(committed);
            assert(writes@ == flush_writes_spec(committed));
        }
        self.state = if keep_running {
            EngineState::Running
        } else {
            EngineState::Terminated
        };
        FrameOutput { keep_running, writes }
    }

    /// Ends the loop: the caller maps an external close event, or a
    /// fatal display write failure, to termination. Nothing else
    /// changes, and termination is final.
    pub fn terminate(&mut self)
        ensures
            final(self).wf() == old(self).wf(),
            final(self).state == EngineState::Terminated,
            final(self).utils == old(self).utils,
            final(self).prev_time_nanos == old(self).prev_time_nanos,
    {
        self.state = EngineState::Terminated;
    }
}

} // verus!
