//! The volume engine's bookkeeping: which backend a volume gets, the
//! catalog of local volumes, the engine's errors and their texts, and the
//! cutting of a volume into the blocks of a snapshot.

use vstd::prelude::*;
use crate::reconcile::{uuid_parse, VolumeId};

verus! {

/// Which storage backend a volume uses.
#[derive(Clone, Copy, Debug, PartialEq, Eq, Structural)]
pub enum BackendType {
    /// The log-structured backend where it can be had, else the legacy one.
    Auto,
    Legacy,
    Magma,
}

impl Default for BackendType {
    fn default() -> (r: Self)
        ensures
            r == BackendType::Auto,
    {
        BackendType::Auto
    }
}

/// What a garbage collection pass did.
#[derive(Clone, Copy, Debug, PartialEq, Eq, Structural)]
pub struct GcStats {
    pub blocks_moved: usize,
    pub bytes_reclaimed: u64,
    pub duration_ms: u64,
}

impl Default for GcStats {
    fn default() -> (r: Self)
        ensures
            r.blocks_moved == 0,
            r.bytes_reclaimed == 0,
            r.duration_ms == 0,
    {
        GcStats { blocks_moved: 0, bytes_reclaimed: 0, duration_ms: 0 }
    }
}

// ---------------------------------------------------------------------------
// Text
// ---------------------------------------------------------------------------

/// A lower-case hexadecimal digit.
pub open spec fn hex_digit(d: nat) -> char {
    if d < 10 {
        (48 + d) as char
    } else {
        (87 + d) as char
    }
}

/// The last `n` hexadecimal digits of `v`, most significant first.
pub open spec fn hex_digits(v: nat, n: nat) -> Seq<char>
    decreases n,
{
    if n == 0 {
        Seq::empty()
    } else {
        hex_digits(v / 16, (n - 1) as nat).push(hex_digit(v % 16))
    }
}

/// The canonical text of a UUID: its 32 lower-case hexadecimal digits,
/// most significant first, in groups of 8, 4, 4, 4 and 12 joined by '-'.
pub open spec fn uuid_string(v: u128) -> Seq<char> {
    let h = hex_digits(v as nat, 32);
    h.subrange(0, 8) + seq!['-'] + h.subrange(8, 12) + seq!['-'] + h.subrange(12, 16) + seq!['-']
        + h.subrange(16, 20) + seq!['-'] + h.subrange(20, 32)
}

/// Formats the UUID `v` with `uuid::Uuid::from_u128(v).to_string()`.
///
/// Trusted: the result is `uuid_string(v)`, the hyphenated lower-case form
/// that the crate's `Display` writes (its `format_hyphenated` over the
/// big-endian bytes that `from_u128` keeps), and `Uuid::parse_str` reads
/// it back as `v`.
#[verifier::external_body]
fn format_uuid(v: u128) -> (r: String)
    ensures
        r@ == uuid_string(v),
        uuid_parse(r@) == Some(v),
{
    uuid::Uuid::from_u128(v).to_string()
}

impl VolumeId {
    /// The volume id as text.
    pub fn to_text(&self) -> (r: String)
        ensures
            r@ == uuid_string(self.0),
            uuid_parse(r@) == Some(self.0),
    {
        format_uuid(self.0)
    }
}

/// The decimal digits of `v`.
pub open spec fn decimal(v: nat) -> Seq<char>
    decreases v,
{
    if v < 10 {
        seq![(48 + v) as char]
    } else {
        decimal(v / 10).push((48 + v % 10) as char)
    }
}

/// `v` in decimal.
pub fn decimal_text(v: u64) -> (r: String)
    ensures
        r@ == decimal(v as nat),
    decreases v,
{
    let d = (v % 10) as u8;
    let c: char = (48u8 + d) as char;
    proof {
        assert(c == (48 + v % 10) as char);
    }
    if v < 10 {
        let mut s = String::new();
        s.append(char_text(c).as_str());
        proof {
            assert(s@ =~= seq![c]);
        }
        s
    } else {
        let mut s = decimal_text(v / 10);
        s.append(char_text(c).as_str());
        proof {
            assert(s@ =~= decimal((v / 10) as nat).push(c));
        }
        s
    }
}

fn char_text(c: char) -> (r: String)
    requires
        '0' <= c <= '9',
    ensures
        r@ == seq![c],
{
    let s = if c == '0' {
        "0"
    } else if c == '1' {
        "1"
    } else if c == '2' {
        "2"
    } else if c == '3' {
        "3"
    } else if c == '4' {
        "4"
    } else if c == '5' {
        "5"
    } else if c == '6' {
        "6"
    } else if c == '7' {
        "7"
    } else if c == '8' {
        "8"
    } else {
        "9"
    };
    proof {
        reveal_strlit("0");
        reveal_strlit("1");
        reveal_strlit("2");
        reveal_strlit("3");
        reveal_strlit("4");
        reveal_strlit("5");
        reveal_strlit("6");
        reveal_strlit("7");
        reveal_strlit("8");
        reveal_strlit("9");
    }
    s.to_owned()
}

// ---------------------------------------------------------------------------
// Errors
// ---------------------------------------------------------------------------

/// The volume engine's errors.
#[derive(Clone, Debug, PartialEq, Eq)]
pub enum FoundryError {
    VolumeNotFound(VolumeId),
    VolumeExists(VolumeId),
    InvalidBackend(String),
    BackendUnavailable { reason: String },
    /// An I/O failure at `offset`; `detail` says what failed.
    IoError { offset: u64, detail: String },
    OutOfBounds { offset: u64, len: usize, volume_size: u64 },
    DeviceError(String),
    GcError(String),
    ResizeNotSupported,
    ConfigError(String),
}

/// The text of an error.
pub open spec fn foundry_error_text(e: FoundryError) -> Seq<char> {
    match e {
        FoundryError::VolumeNotFound(v) => "Volume not found: VolumeId("@ + uuid_string(v.0) + ")"@,
        FoundryError::VolumeExists(v) => "Volume already exists: VolumeId("@ + uuid_string(v.0)
            + ")"@,
        FoundryError::InvalidBackend(s) => "Invalid backend type: "@ + s@,
        FoundryError::BackendUnavailable { reason } => "Backend unavailable: "@ + reason@,
        FoundryError::IoError { offset, detail } => "I/O error at offset "@ + decimal(
            offset as nat,
        ) + ": "@ + detail@,
        FoundryError::OutOfBounds { offset, len, volume_size } => "Out of bounds: offset="@
            + decimal(offset as nat) + ", len="@ + decimal(len as nat) + ", volume_size="@
            + decimal(volume_size as nat),
        FoundryError::DeviceError(s) => "Device error: "@ + s@,
        FoundryError::GcError(s) => "GC error: "@ + s@,
        FoundryError::ResizeNotSupported => "Resize not supported for this backend"@,
        FoundryError::ConfigError(s) => "Configuration error: "@ + s@,
    }
}

impl FoundryError {
    pub fn invalid_backend(reason: String) -> (r: Self)
        ensures
            r == FoundryError::InvalidBackend(reason),
    {
        FoundryError::InvalidBackend(reason)
    }

    pub fn backend_unavailable(reason: String) -> (r: Self)
        ensures
            r == (FoundryError::BackendUnavailable { reason }),
    {
        FoundryError::BackendUnavailable { reason }
    }

    pub fn io_error(offset: u64, detail: String) -> (r: Self)
        ensures
            r == (FoundryError::IoError { offset, detail }),
    {
        FoundryError::IoError { offset, detail }
    }

    pub fn out_of_bounds(offset: u64, len: usize, volume_size: u64) -> (r: Self)
        ensures
            r == (FoundryError::OutOfBounds { offset, len, volume_size }),
    {
        FoundryError::OutOfBounds { offset, len, volume_size }
    }

    pub fn device_error(message: String) -> (r: Self)
        ensures
            r == FoundryError::DeviceError(message),
    {
        FoundryError::DeviceError(message)
    }

    pub fn config_error(message: String) -> (r: Self)
        ensures
            r == FoundryError::ConfigError(message),
    {
        FoundryError::ConfigError(message)
    }

    /// The error as text.
    pub fn message(&self) -> (r: String)
        ensures
            r@ == foundry_error_text(*self),
    {
        match self {
            FoundryError::VolumeNotFound(v) => {
                let mut s = String::from_str("Volume not found: VolumeId(");
                s.append(v.to_text().as_str());
                s.append(")");
                s
            },
            FoundryError::VolumeExists(v) => {
                let mut s = String::from_str("Volume already exists: VolumeId(");
                s.append(v.to_text().as_str());
                s.append(")");
                s
            },
            FoundryError::InvalidBackend(r) => String::from_str("Invalid backend type: ").concat(
                r.as_str(),
            ),
            FoundryError::BackendUnavailable { reason } => String::from_str(
                "Backend unavailable: ",
            ).concat(reason.as_str()),
            FoundryError::IoError { offset, detail } => {
                let mut s = String::from_str("I/O error at offset ");
                s.append(decimal_text(*offset).as_str());
                s.append(": ");
                s.append(detail.as_str());
                s
            },
            FoundryError::OutOfBounds { offset, len, volume_size } => {
                let mut s = String::from_str("Out of bounds: offset=");
                s.append(decimal_text(*offset).as_str());
                s.append(", len=");
                s.append(decimal_text(*len as u64).as_str());
                s.append(", volume_size=");
                s.append(decimal_text(*volume_size).as_str());
                s
            },
            FoundryError::DeviceError(m) => String::from_str("Device error: ").concat(m.as_str()),
            FoundryError::GcError(m) => String::from_str("GC error: ").concat(m.as_str()),
            FoundryError::ResizeNotSupported => String::from_str(
                "Resize not supported for this backend",
            ),
            FoundryError::ConfigError(m) => String::from_str("Configuration error: ").concat(
                m.as_str(),
            ),
        }
    }
}

// ---------------------------------------------------------------------------
// The catalog of volumes
// ---------------------------------------------------------------------------

pub open spec fn volume_ids(s: Seq<(VolumeId, BackendType)>) -> Seq<u128> {
    s.map_values(|e: (VolumeId, BackendType)| e.0.0)
}

/// The engine's volumes, each with the backend it was made with, and the
/// backend used when a creation names none.
pub struct Foundry {
    volumes: Vec<(VolumeId, BackendType)>,
    backend_preference: BackendType,
}

impl Foundry {
    #[verifier::type_invariant]
    spec fn distinct(self) -> bool {
        volume_ids(self.volumes@).no_duplicates()
    }

    /// The volumes, in the order they were made.
    pub closed spec fn view(self) -> Seq<(VolumeId, BackendType)> {
        self.volumes@
    }

    pub closed spec fn preference(self) -> BackendType {
        self.backend_preference
    }

    /// An engine with no volume, choosing the backend automatically.
    pub fn new() -> (r: Self)
        ensures
            r.view() == Seq::<(VolumeId, BackendType)>::empty(),
            r.preference() == BackendType::Auto,
    {
        Foundry { volumes: Vec::new(), backend_preference: BackendType::Auto }
    }

    /// The same engine, using `backend` when a creation names none.
    pub fn with_backend(self, backend: BackendType) -> (r: Self)
        ensures
            r.view() == self.view(),
            r.preference() == backend,
    {
        proof {
            use_type_invariant(&self);
        }
        Foundry { volumes: self.volumes, backend_preference: backend }
    }

    fn position(&self, id: VolumeId) -> (r: Option<usize>)
        ensures
            match r {
                Some(i) => i < self.view().len() && self.view()[i as int].0 == id,
                None => !volume_ids(self.view()).contains(id.0),
            },
    {
        let mut i: usize = 0;
        while i < self.volumes.len()
            invariant
                i <= self.volumes@.len(),
                forall|j: int| 0 <= j < i ==> self.volumes@[j].0.0 != id.0,
            decreases self.volumes@.len() - i,
        {
            if self.volumes[i].0.0 == id.0 {
                return Some(i);
            }
            i = i + 1;
        }
        proof {
            if volume_ids(self.view()).contains(id.0) {
                let j = choose|j: int| 0 <= j < volume_ids(self.view()).len() && volume_ids(
                    self.view(),
                )[j] == id.0;
                assert(self.volumes@[j].0.0 == id.0);
            }
        }
        None
    }

    /// The backend a new volume `id` gets: the one asked for, else the
    /// engine's preference; refused when the volume exists.
    pub fn plan_create(&self, id: VolumeId, requested: Option<BackendType>) -> (r: Result<
        BackendType,
        FoundryError,
    >)
        ensures
            volume_ids(self.view()).contains(id.0) ==> r == Err::<BackendType, FoundryError>(
                FoundryError::VolumeExists(id),
            ),
            !volume_ids(self.view()).contains(id.0) ==> r == Ok::<BackendType, FoundryError>(
                match requested {
                    Some(b) => b,
                    None => self.preference(),
                },
            ),
    {
        if let Some(i) = self.position(id) {
            proof {
                assert(volume_ids(self.view())[i as int] == id.0);
            }
            return Err(FoundryError::VolumeExists(id));
        }
        match requested {
            Some(b) => Ok(b),
            None => Ok(self.backend_preference),
        }
    }

    /// Records volume `id`, made with `backend`; refused when it exists.
    pub fn register(&mut self, id: VolumeId, backend: BackendType) -> (r: Result<(), FoundryError>)
        ensures
            volume_ids(old(self).view()).contains(id.0) ==> r == Err::<(), FoundryError>(
                FoundryError::VolumeExists(id),
            ) && final(self).view() == old(self).view(),
            !volume_ids(old(self).view()).contains(id.0) ==> r is Ok && final(self).view() == old(
                self,
            ).view().push((id, backend)),
            final(self).preference() == old(self).preference(),
    {
        proof {
            use_type_invariant(&*self);
        }
        if let Some(i) = self.position(id) {
            proof {
                assert(volume_ids(self.view())[i as int] == id.0);
            }
            return Err(FoundryError::VolumeExists(id));
        }
        let ghost before = self.volumes@;
        let mut vols: Vec<(VolumeId, BackendType)> = Vec::new();
        std::mem::swap(&mut vols, &mut self.volumes);
        vols.push((id, backend));
        proof {
            assert(volume_ids(vols@) =~= volume_ids(before).push(id.0));
        }
        self.volumes = vols;
        Ok(())
    }

    /// The backend of volume `id`.
    pub fn get_volume(&self, id: VolumeId) -> (r: Result<BackendType, FoundryError>)
        ensures
            match r {
                Ok(b) => self.view().contains((id, b)),
                Err(e) => !volume_ids(self.view()).contains(id.0) && e == FoundryError::VolumeNotFound(
                    id,
                ),
            },
    {
        match self.position(id) {
            Some(i) => {
                let (v, b) = self.volumes[i];
                proof {
                    assert(self.view()[i as int] == (id, b));
                }
                Ok(b)
            },
            None => Err(FoundryError::VolumeNotFound(id)),
        }
    }

    /// Forgets volume `id`.
    pub fn delete_volume(&mut self, id: VolumeId) -> (r: Result<(), FoundryError>)
        ensures
            !volume_ids(old(self).view()).contains(id.0) ==> r == Err::<(), FoundryError>(
                FoundryError::VolumeNotFound(id),
            ) && final(self).view() == old(self).view(),
            volume_ids(old(self).view()).contains(id.0) ==> r is Ok && !volume_ids(
                final(self).view(),
            ).contains(id.0) && exists|i: int|
                0 <= i < old(self).view().len() && final(self).view() == old(self).view().remove(i),
            final(self).preference() == old(self).preference(),
    {
        proof {
            use_type_invariant(&*self);
        }
        match self.position(id) {
            None => Err(FoundryError::VolumeNotFound(id)),
            Some(i) => {
                let ghost before = self.volumes@;
                let mut vols: Vec<(VolumeId, BackendType)> = Vec::new();
                std::mem::swap(&mut vols, &mut self.volumes);
                vols.remove(i);
                proof {
                    assert(volume_ids(vols@) =~= volume_ids(before).remove(i as int));
                    let ids = volume_ids(before);
                    assert(ids[i as int] == id.0);
                    if volume_ids(vols@).contains(id.0) {
                        let k = choose|k: int| 0 <= k < volume_ids(vols@).len() && volume_ids(
                            vols@,
                        )[k] == id.0;
                        let k2 = if k < i { k } else { k + 1 };
                        assert(ids[k2] == id.0);
                    }
                    assert forall|a: int, b: int|
                        0 <= a < volume_ids(vols@).len() && 0 <= b < volume_ids(vols@).len() && a
                            != b implies volume_ids(vols@)[a] != volume_ids(vols@)[b] by {
                        let a2 = if a < i { a } else { a + 1 };
                        let b2 = if b < i { b } else { b + 1 };
                        assert(volume_ids(vols@)[a] == ids[a2] && volume_ids(vols@)[b] == ids[b2]);
                    }
                }
                self.volumes = vols;
                Ok(())
            },
        }
    }

    /// The volumes' ids, in the order they were made.
    pub fn list_volumes(&self) -> (r: Vec<VolumeId>)
        ensures
            r@.map_values(|v: VolumeId| v.0) == volume_ids(self.view()),
    {
        let mut r: Vec<VolumeId> = Vec::new();
        let mut i: usize = 0;
        while i < self.volumes.len()
            invariant
                i <= self.volumes@.len(),
                r@.len() == i,
                forall|j: int| 0 <= j < i ==> (#[trigger] r@[j]) == self.volumes@[j].0,
            decreases self.volumes@.len() - i,
        {
            r.push(self.volumes[i].0);
            i = i + 1;
        }
        proof {
            assert(r@.map_values(|v: VolumeId| v.0) =~= volume_ids(self.view()));
        }
        r
    }
}

/// The backend to try next when making a volume with `chosen` failed:
/// automatic choice falls back to the legacy backend; a backend asked for
/// by name has no fallback.
pub fn fallback_backend(chosen: BackendType) -> (r: Option<BackendType>)
    ensures
        chosen == BackendType::Auto ==> r == Some(BackendType::Legacy),
        chosen != BackendType::Auto ==> r is None,
{
    match chosen {
        BackendType::Auto => Some(BackendType::Legacy),
        _ => None,
    }
}

// ---------------------------------------------------------------------------
// Snapshots
// ---------------------------------------------------------------------------

/// Bytes per snapshot block (64 KiB).
pub const SNAPSHOT_CHUNK_SIZE: u64 = 65536;

/// The blocks of a snapshot of `size` bytes: from the start, 64 KiB each,
/// the last one shorter.
pub open spec fn snapshot_blocks(start: int, size: int) -> Seq<(int, int)>
    decreases size - start,
{
    if start >= size {
        Seq::empty()
    } else {
        let len = if size - start < 65536 {
            size - start
        } else {
            65536
        };
        seq![(start, len)] + snapshot_blocks(start + len, size)
    }
}

/// The blocks (offset, length) in which a volume of `size` bytes is
/// snapshotted.
pub fn snapshot_ranges(size: u64) -> (r: Vec<(u64, u32)>)
    ensures
        r@.len() == snapshot_blocks(0, size as int).len(),
        forall|i: int|
            0 <= i < r@.len() ==> (#[trigger] r@[i]).0 == snapshot_blocks(0, size as int)[i].0
                && r@[i].1 == snapshot_blocks(0, size as int)[i].1,
{
    let ghost full = snapshot_blocks(0, size as int);
    let mut r: Vec<(u64, u32)> = Vec::new();
    let mut offset: u64 = 0;
    proof {
        assert(full == full.subrange(0, 0) + snapshot_blocks(0, size as int));
    }
    while offset < size
        invariant
            offset <= size,
            r@.len() <= full.len(),
            full == snapshot_blocks(0, size as int),
            full == full.subrange(0, r@.len() as int) + snapshot_blocks(offset as int, size as int),
            forall|i: int|
                0 <= i < r@.len() ==> (#[trigger] r@[i]).0 == full[i].0 && r@[i].1 == full[i].1,
        decreases size - offset,
    {
        let len: u64 = if size - offset < SNAPSHOT_CHUNK_SIZE {
            size - offset
        } else {
            SNAPSHOT_CHUNK_SIZE
        };
        proof {
            let rest = snapshot_blocks(offset as int, size as int);
            assert(rest == seq![(offset as int, len as int)] + snapshot_blocks(
                offset + len,
                size as int,
            ));
            let k = r@.len() as int;
            assert(full[k] == rest[0]);
            assert(full.subrange(0, k + 1) =~= full.subrange(0, k).push(rest[0]));
            assert(full =~= full.subrange(0, k + 1) + snapshot_blocks(offset + len, size as int));
        }
        r.push((offset, len as u32));
        offset = offset + len;
    }
    proof {
        assert(snapshot_blocks(offset as int, size as int) =~= Seq::<(int, int)>::empty());
        assert(full.subrange(0, r@.len() as int) =~= full);
    }
    r
}

/// A snapshot's blocks tile the volume: each starts where the one before
/// ended, the first at zero, the last ending at the volume's end, none
/// longer than 64 KiB.
pub proof fn lemma_snapshot_blocks_tile(start: int, size: int)
    requires
        0 <= start <= size,
    ensures
        ({
            let b = snapshot_blocks(start, size);
            &&& start < size ==> b.len() > 0 && b[0].0 == start && b.last().0 + b.last().1 == size
            &&& start == size ==> b.len() == 0
            &&& forall|i: int| 0 <= i < b.len() ==> 0 < (#[trigger] b[i]).1 <= 65536
            &&& forall|i: int| 1 <= i < b.len() ==> (#[trigger] b[i]).0 == b[i - 1].0 + b[i - 1].1
        }),
    decreases size - start,
{
    if start < size {
        let len = if size - start < 65536 {
            size - start
        } else {
            65536
        };
        lemma_snapshot_blocks_tile(start + len, size);
        let b = snapshot_blocks(start, size);
        let rest = snapshot_blocks(start + len, size);
        assert(b == seq![(start, len)] + rest);
        assert forall|i: int| 0 <= i < b.len() implies 0 < (#[trigger] b[i]).1 <= 65536 by {
            if i > 0 {
                assert(b[i] == rest[i - 1]);
            }
        }
        assert forall|i: int| 1 <= i < b.len() implies (#[trigger] b[i]).0 == b[i - 1].0 + b[i
            - 1].1 by {
            assert(b[i] == rest[i - 1]);
            if i > 1 {
                assert(b[i - 1] == rest[i - 2]);
            }
        }
        if rest.len() > 0 {
            assert(b.last() == rest.last());
        }
    }
}

/// Whether a volume of `current` bytes must grow to take a snapshot of
/// `snapshot_size` bytes.
pub fn needs_resize(current: u64, snapshot_size: u64) -> (r: bool)
    ensures
        r == (current < snapshot_size),
{
    current < snapshot_size
}

/// The bounds check of a read or write of `len` bytes at `offset` on a
/// volume of `size` bytes: refused when it would reach past the end.
pub fn check_bounds(offset: u64, len: usize, size: u64) -> (r: Result<(), FoundryError>)
    requires
        offset + len <= u64::MAX,
    ensures
        offset + len > size ==> r == Err::<(), FoundryError>(
            FoundryError::OutOfBounds { offset, len, volume_size: size },
        ),
        offset + len <= size ==> r == Ok::<(), FoundryError>(()),
{
    if offset + len as u64 > size {
        Err(FoundryError::out_of_bounds(offset, len, size))
    } else {
        Ok(())
    }
}

/// A replicated write is acknowledged only when the local write and the
/// replica's both went through; a local failure is the one reported.
pub fn replicated_outcome(local: Result<(), FoundryError>, remote: Result<(), FoundryError>) -> (r:
    Result<(), FoundryError>)
    ensures
        r == match local {
            Err(e) => Err::<(), FoundryError>(e),
            Ok(()) => remote,
        },
{
    match local {
        Err(e) => Err(e),
        Ok(()) => remote,
    }
}

} // verus!
