//! The settings of an append log.
use vstd::prelude::*;

verus! {

/// A span of time.
#[derive(Clone, Copy, Debug, PartialEq, Eq, Structural)]
pub struct Duration {
    pub secs: u64,
    pub nanos: u32,
}

impl Duration {
    /// A span of whole seconds.
    pub fn from_secs(secs: u64) -> (r: Self)
        ensures
            r == (Duration { secs, nanos: 0 }),
    {
        Duration { secs, nanos: 0 }
    }

    /// The whole seconds of the span.
    pub fn as_secs(&self) -> (r: u64)
        ensures
            r == self.secs,
    {
        self.secs
    }
}

/// How segments are compressed.
#[derive(Clone, Copy, Debug, PartialEq, Eq, Structural)]
pub enum CompressionType {
    Uncompressed,
    /// Fast, with moderate compression.
    Lz4,
    /// Slower, with better compression.
    Zstd,
    /// Very fast, with light compression.
    Snappy,
}

/// Which old segments are kept.
#[derive(Clone, Copy, Debug, PartialEq, Eq, Structural)]
pub enum RetentionPolicy {
    /// All of them.
    KeepAll,
    /// At most so many; the oldest go first.
    MaxSegments(usize),
    /// Those that are not older.
    MaxAge(Duration),
}

impl RetentionPolicy {
    /// Keeps at most `n` segments.
    pub fn max_segments(n: usize) -> (r: Self)
        ensures
            r == RetentionPolicy::MaxSegments(n),
    {
        RetentionPolicy::MaxSegments(n)
    }

    /// Keeps segments for at most `duration`.
    pub fn max_age(duration: Duration) -> (r: Self)
        ensures
            r == RetentionPolicy::MaxAge(duration),
    {
        RetentionPolicy::MaxAge(duration)
    }
}

/// The settings of an append log.
#[derive(Clone, Copy, Debug, PartialEq, Eq, Structural)]
pub struct AppendLogConfig {
    /// The size from which on a segment is rolled.
    pub segment_size: u64,
    pub compression: CompressionType,
    pub retention_policy: RetentionPolicy,
    /// Whether writes go to disk at once.
    pub sync_writes: bool,
    /// The size from which on the write buffer is flushed.
    pub write_buffer_size: usize,
}

/// Segments of 64 MiB without compression, all kept, with a write buffer of 4 KiB.
pub open spec fn default_config() -> AppendLogConfig {
    AppendLogConfig {
        segment_size: 67108864,
        compression: CompressionType::Uncompressed,
        retention_policy: RetentionPolicy::KeepAll,
        sync_writes: false,
        write_buffer_size: 4096,
    }
}

impl Default for AppendLogConfig {
    fn default() -> (r: Self)
        ensures
            r == default_config(),
    {
        AppendLogConfig {
            segment_size: 67108864,
            compression: CompressionType::Uncompressed,
            retention_policy: RetentionPolicy::KeepAll,
            sync_writes: false,
            write_buffer_size: 4096,
        }
    }
}

impl AppendLogConfig {
    /// The default settings.
    pub fn new() -> (r: Self)
        ensures
            r == default_config(),
    {
        Self::default()
    }

    /// Sets the size from which on a segment is rolled.
    pub fn with_segment_size(self, size: u64) -> (r: Self)
        ensures
            r == (AppendLogConfig { segment_size: size, ..self }),
    {
        AppendLogConfig { segment_size: size, ..self }
    }

    /// Sets the compression.
    pub fn with_compression(self, compression: CompressionType) -> (r: Self)
        ensures
            r == (AppendLogConfig { compression, ..self }),
    {
        AppendLogConfig { compression, ..self }
    }

    /// Sets which segments are kept.
    pub fn with_retention_policy(self, policy: RetentionPolicy) -> (r: Self)
        ensures
            r == (AppendLogConfig { retention_policy: policy, ..self }),
    {
        AppendLogConfig { retention_policy: policy, ..self }
    }

    /// Sets whether writes go to disk at once.
    pub fn with_sync_writes(self, sync: bool) -> (r: Self)
        ensures
            r == (AppendLogConfig { sync_writes: sync, ..self }),
    {
        AppendLogConfig { sync_writes: sync, ..self }
    }

    /// Sets the size from which on the write buffer is flushed.
    pub fn with_write_buffer_size(self, size: usize) -> (r: Self)
        ensures
            r == (AppendLogConfig { write_buffer_size: size, ..self }),
    {
        AppendLogConfig { write_buffer_size: size, ..self }
    }
}

} // verus!
