//! The dataset model that every check reads.
//!
//! A double-precision number stands here by its IEEE 754 bits.

use vstd::prelude::*;
use vstd::string::*;

use crate::text::same;

verus! {

/// Nanoseconds on a stream's clock.
pub type TimestampNs = i64;

/// The metadata key under which a source declares how many episodes it holds.
pub const META_DECLARED_EPISODES: &'static str = "declared_episodes";

/// The metadata key under which a source declares how many frames it holds.
pub const META_DECLARED_FRAMES: &'static str = "declared_frames";

/// What a stream records.
#[derive(Debug, Clone, Copy, PartialEq, Eq, Structural)]
pub enum Modality {
    /// Camera frames.
    Video,
    /// Proprioception or another numeric state.
    ScalarState,
    /// Commands sent to the robot.
    Action,
    /// Sound.
    Audio,
    /// Touch, force or torque.
    TactileForceTorque,
    /// LiDAR or radar points.
    PointCloud,
    /// Inertial measurements.
    Imu,
    /// Satellite positioning.
    Gnss,
    /// A signal of a vehicle bus.
    CanSignal,
    /// The pose of the vehicle itself.
    EgoPose,
    /// A topic that samples nothing: a log, a parameter event, a transform tree.
    Other,
}

impl Modality {
    /// Whether this is a sensor that only an autonomy rig carries.
    pub open spec fn spec_is_rig_sensor(self) -> bool {
        self is PointCloud || self is Imu || self is Gnss || self is CanSignal || self is EgoPose
    }

    /// Whether this is a sensor that only an autonomy rig carries.
    pub fn is_rig_sensor(self) -> (r: bool)
        ensures
            r == self.spec_is_rig_sensor(),
    {
        match self {
            Modality::PointCloud => true,
            Modality::Imu => true,
            Modality::Gnss => true,
            Modality::CanSignal => true,
            Modality::EgoPose => true,
            _ => false,
        }
    }

    /// Whether a stream of this kind samples the world.
    pub fn is_sensor(self) -> (r: bool)
        ensures
            r == !(self is Other),
    {
        match self {
            Modality::Other => false,
            _ => true,
        }
    }

    /// Whether observations of this kind are placed in space by a mount pose.
    pub open spec fn spec_is_spatial(self) -> bool {
        self is PointCloud || self is Video || self is Imu || self is Gnss
    }

    /// The name of the variant.
    pub open spec fn spec_name(self) -> Seq<char> {
        match self {
            Modality::Video => "Video"@,
            Modality::ScalarState => "ScalarState"@,
            Modality::Action => "Action"@,
            Modality::Audio => "Audio"@,
            Modality::TactileForceTorque => "TactileForceTorque"@,
            Modality::PointCloud => "PointCloud"@,
            Modality::Imu => "Imu"@,
            Modality::Gnss => "Gnss"@,
            Modality::CanSignal => "CanSignal"@,
            Modality::EgoPose => "EgoPose"@,
            Modality::Other => "Other"@,
        }
    }

    /// The name of the variant.
    pub fn name(self) -> (r: &'static str)
        ensures
            r@ == self.spec_name(),
    {
        match self {
            Modality::Video => "Video",
            Modality::ScalarState => "ScalarState",
            Modality::Action => "Action",
            Modality::Audio => "Audio",
            Modality::TactileForceTorque => "TactileForceTorque",
            Modality::PointCloud => "PointCloud",
            Modality::Imu => "Imu",
            Modality::Gnss => "Gnss",
            Modality::CanSignal => "CanSignal",
            Modality::EgoPose => "EgoPose",
            Modality::Other => "Other",
        }
    }
}

/// What a stream's timestamps are.
#[derive(Debug, Clone, Copy, PartialEq, Eq, Structural)]
pub enum ClockKind {
    /// Measured time.
    Measured,
    /// A positional step index: an order, not a time.
    StepIndex,
}

/// Where a frame's payload lies, and its fingerprint where it was read.
#[derive(Debug)]
pub struct ValueRef {
    /// The file or object that holds the payload.
    pub uri: String,
    /// Where in it the payload starts.
    pub byte_offset: Option<u64>,
    /// How long the payload is.
    pub byte_len: Option<u64>,
    /// The SHA-256 of the payload.
    pub content_hash: Option<[u8; 32]>,
}

/// One frame of a stream.
#[derive(Debug)]
pub struct Frame {
    /// When it was recorded.
    pub ts: TimestampNs,
    /// Its payload.
    pub value_ref: ValueRef,
}

/// A summary of a stream's values.
#[derive(Debug)]
pub struct StreamStats {
    /// The least value.
    pub min: u64,
    /// The greatest value.
    pub max: u64,
    /// The mean.
    pub mean: u64,
    /// The standard deviation.
    pub std: u64,
}

/// A summary of one dimension of a stream's values.
#[derive(Debug)]
pub struct DimStats {
    /// The dimension.
    pub dim: u64,
    /// Its summary.
    pub stats: StreamStats,
}

/// How many of a stream's values sit at its extremes.
#[derive(Debug)]
pub struct SaturationCounts {
    /// How many values there are.
    pub sample_count: u64,
    /// How many equal the least one.
    pub at_min: u64,
    /// How many equal the greatest one.
    pub at_max: u64,
    /// The least value.
    pub min: u64,
    /// The greatest value.
    pub max: u64,
    /// The dimension that was counted.
    pub dim: u64,
}

/// The span that a source declares for a stream's values.
#[derive(Debug)]
pub struct DeclaredRange {
    /// Its lower end.
    pub min: u64,
    /// Its upper end.
    pub max: u64,
}

/// A codec as a manifest or a container names it.
#[derive(Debug)]
pub struct Codec {
    /// The name as it is written.
    pub name: String,
    /// The codec that the name is known for.
    pub canonical: Option<String>,
}

/// The encoding of a video.
#[derive(Debug)]
pub struct MediaParams {
    /// The codec.
    pub codec: Option<Codec>,
    /// The width in pixels.
    pub width: Option<u64>,
    /// The height in pixels.
    pub height: Option<u64>,
    /// Frames per second.
    pub fps: Option<u64>,
}

/// Whether a stream's media file could be read.
#[derive(Debug)]
pub enum MediaStatus {
    /// Its headers were read.
    Read,
    /// There is no such file.
    Missing,
    /// It is no readable container.
    Unreadable {
        /// What was wrong with it.
        reason: String,
    },
    /// There are media files, but none can be paired with an episode.
    Unattributable {
        /// Why not.
        reason: String,
    },
}

/// The media file behind a stream.
#[derive(Debug)]
pub struct Media {
    /// Where it lies.
    pub uri: String,
    /// The encoding that the manifest declares.
    pub declared: MediaParams,
    /// Whether it could be read.
    pub status: MediaStatus,
    /// The encoding that the container states.
    pub observed: MediaParams,
    /// How many frames the container holds.
    pub frame_count: Option<u64>,
}

/// A named series of frames.
#[derive(Debug)]
pub struct Stream {
    /// The name, unique within an episode.
    pub name: String,
    /// What it records.
    pub modality: Modality,
    /// The rate in hertz that the source declares.
    pub declared_rate_hz: Option<u64>,
    /// The clock that stamps it.
    pub clock_id: String,
    /// What that clock's stamps are.
    pub clock_kind: ClockKind,
    /// The element type that the source declares.
    pub dtype: Option<String>,
    /// The shape of one frame that the source declares.
    pub shape: Option<Vec<u64>>,
    /// The names of the dimensions.
    pub dim_names: Option<Vec<String>>,
    /// The frames, in recorded order.
    pub frames: Vec<Frame>,
    /// The summary that the source stores.
    pub stats: Option<StreamStats>,
    /// The summaries by dimension that the source stores.
    pub dim_stats: Option<Vec<DimStats>>,
    /// The summary recomputed from the values.
    pub observed_stats: Option<StreamStats>,
    /// The summaries by dimension recomputed from the values.
    pub observed_dim_stats: Option<Vec<DimStats>>,
    /// How the values sit at their extremes.
    pub observed_saturation: Option<SaturationCounts>,
    /// How many values are not finite.
    pub observed_non_finite: Option<u64>,
    /// The span that the source declares for the values.
    pub declared_range: Option<DeclaredRange>,
    /// Whether the source declares the stream latched.
    pub latched: Option<bool>,
    /// The media file that holds the frames.
    pub media: Option<Media>,
    /// The coordinate frame that the data is stamped with.
    pub frame_id: Option<String>,
}

impl Stream {
    /// Whether the timestamps are measured time.
    pub fn has_measured_time(&self) -> (r: bool)
        ensures
            r == (self.clock_kind is Measured),
    {
        match self.clock_kind {
            ClockKind::Measured => true,
            ClockKind::StepIndex => false,
        }
    }
}

/// A label of an episode.
#[derive(Debug)]
pub struct Label {
    /// What the label is about.
    pub key: String,
    /// What it says.
    pub value: String,
    /// When it applies.
    pub ts: Option<TimestampNs>,
}

/// A pose of the ego vehicle.
#[derive(Debug)]
pub struct EgoPose {
    /// When the vehicle was there.
    pub ts: TimestampNs,
    /// Where it was, in metres.
    pub translation: [u64; 3],
}

/// One recording.
#[derive(Debug)]
pub struct Episode {
    /// Its number.
    pub index: u64,
    /// When it declares to start.
    pub start_ts: Option<TimestampNs>,
    /// When it declares to end.
    pub end_ts: Option<TimestampNs>,
    /// Its streams.
    pub streams: Vec<Stream>,
    /// The task it shows.
    pub task: Option<String>,
    /// Its labels.
    pub labels: Vec<Label>,
    /// The trajectory of the ego vehicle.
    pub ego_poses: Option<Vec<EgoPose>>,
    /// How many frames the manifest declares for it.
    pub declared_frame_count: Option<u64>,
    /// How long it lasts, in nanoseconds, where that can be measured.
    pub duration_ns: Option<u64>,
}

/// How a provenance element is known.
#[derive(Debug, Clone, Copy, PartialEq, Eq, Structural)]
pub enum ProvenanceClass {
    /// Extracted from the source.
    Known,
    /// Claimed by someone.
    Asserted,
    /// Not known.
    Unknown,
}

impl ProvenanceClass {
    /// The stable tag of the class.
    pub open spec fn spec_tag(self) -> Seq<char> {
        match self {
            ProvenanceClass::Known => "known"@,
            ProvenanceClass::Asserted => "asserted"@,
            ProvenanceClass::Unknown => "unknown"@,
        }
    }

    /// The stable tag of the class.
    pub fn tag(self) -> (r: &'static str)
        ensures
            r@ == self.spec_tag(),
    {
        match self {
            ProvenanceClass::Known => "known",
            ProvenanceClass::Asserted => "asserted",
            ProvenanceClass::Unknown => "unknown",
        }
    }
}

/// One statement about where the data comes from.
#[derive(Debug)]
pub struct ProvenanceElement {
    /// What the statement is about.
    pub key: String,
    /// What it says.
    pub value: Option<String>,
    /// How it is known.
    pub class: ProvenanceClass,
    /// Whether the value only stands in for one that is missing (`unknown`, `n/a` and the like).
    pub placeholder: bool,
}

impl ProvenanceElement {
    /// Whether the element says something.
    pub open spec fn spec_has_real_value(&self) -> bool {
        self.value is Some && !self.placeholder
    }

    /// Whether the element says something.
    pub fn has_real_value(&self) -> (r: bool)
        ensures
            r == self.spec_has_real_value(),
    {
        self.value.is_some() && !self.placeholder
    }
}

/// A group of statements about where the data comes from.
#[derive(Debug)]
pub struct Provenance {
    /// The statements.
    pub elements: Vec<ProvenanceElement>,
}

/// A camera's intrinsic calibration.
#[derive(Debug)]
pub struct CameraIntrinsics {
    /// The topic that published it.
    pub stream: String,
    /// The focal length in x.
    pub fx: u64,
    /// The focal length in y.
    pub fy: u64,
    /// The principal point's x.
    pub cx: u64,
    /// The principal point's y.
    pub cy: u64,
    /// The distortion coefficients.
    pub distortion: Vec<u64>,
}

/// A rigid transform.
#[derive(Debug)]
pub struct Pose {
    /// The translation.
    pub translation: [u64; 3],
    /// The rotation quaternion.
    pub rotation: [u64; 4],
}

/// Where a child frame lies in its parent frame.
#[derive(Debug)]
pub struct Transform {
    /// The parent frame.
    pub parent_frame: String,
    /// The child frame.
    pub child_frame: String,
    /// The child's place in the parent.
    pub pose: Pose,
    /// From when it holds; from the beginning where absent.
    pub valid_from: Option<TimestampNs>,
    /// Until when it holds; to the end where absent.
    pub valid_to: Option<TimestampNs>,
}

/// A rig's calibration.
#[derive(Debug)]
pub struct Calibration {
    /// The cameras' intrinsics.
    pub intrinsics: Vec<CameraIntrinsics>,
    /// The transform tree.
    pub transforms: Vec<Transform>,
}

/// A dataset.
#[derive(Debug)]
pub struct Dataset {
    /// Its name.
    pub id: String,
    /// The rig's calibration.
    pub calibration: Option<Calibration>,
    /// What the source says about it.
    pub metadata: Vec<(String, String)>,
    /// Where it comes from.
    pub provenance: Vec<Provenance>,
    /// Its recordings.
    pub episodes: Vec<Episode>,
}

/// The first value recorded under a key.
pub open spec fn first_value(metadata: Seq<(String, String)>, key: Seq<char>) -> Option<Seq<char>>
    decreases metadata.len(),
{
    if metadata.len() == 0 {
        None
    } else if metadata[0].0@ == key {
        Some(metadata[0].1@)
    } else {
        first_value(metadata.skip(1), key)
    }
}

/// The first value recorded under a key.
pub fn metadata_value<'a>(metadata: &'a Vec<(String, String)>, key: &str) -> (r: Option<&'a str>)
    ensures
        match r {
            Some(v) => first_value(metadata@, key@) == Some(v@),
            None => first_value(metadata@, key@) is None,
        },
{
    let mut i: usize = 0;
    assert(metadata@.skip(0) =~= metadata@);
    while i < metadata.len()
        invariant
            i <= metadata@.len(),
            first_value(metadata@, key@) == first_value(metadata@.skip(i as int), key@),
        decreases metadata@.len() - i,
    {
        if same(metadata[i].0.as_str(), key) {
            return Some(metadata[i].1.as_str());
        }
        assert(metadata@.skip(i as int).skip(1) =~= metadata@.skip(i + 1));
        i = i + 1;
    }
    None
}

} // verus!
