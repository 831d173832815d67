//! Block volumes backed by capsules: the catalog of volumes, kept in name
//! order, and the checks and bookkeeping around creating, reading, writing
//! and deleting them. Each write replaces the volume's capsule with a new
//! one; the catalog's version of a volume guards against concurrent writers.

use vstd::prelude::*;

verus! {

/// The block size of a volume created without one.
pub const DEFAULT_BLOCK_SIZE: u64 = 4096;

// ---------------------------------------------------------------------------
// Names
// ---------------------------------------------------------------------------

/// Characters allowed in a volume name: ASCII letters and digits, `-`, `_`
/// and `.`.
pub open spec fn name_char_ok(c: char) -> bool {
    ('a' <= c <= 'z') || ('A' <= c <= 'Z') || ('0' <= c <= '9') || c == '-' || c == '_' || c == '.'
}

fn char_ok(c: char) -> (r: bool)
    ensures
        r == name_char_ok(c),
{
    ('a' <= c && c <= 'z') || ('A' <= c && c <= 'Z') || ('0' <= c && c <= '9') || c == '-' || c
        == '_' || c == '.'
}

/// `a` sorts before `b`, character by character (code point order).
pub open spec fn name_lt(a: Seq<char>, b: Seq<char>) -> bool
    decreases a.len(),
{
    if b.len() == 0 {
        false
    } else if a.len() == 0 {
        true
    } else if a[0] != b[0] {
        (a[0] as int) < (b[0] as int)
    } else {
        name_lt(a.drop_first(), b.drop_first())
    }
}

proof fn lemma_lt_irreflexive(a: Seq<char>)
    ensures
        !name_lt(a, a),
    decreases a.len(),
{
    if a.len() > 0 {
        lemma_lt_irreflexive(a.drop_first());
    }
}

proof fn lemma_lt_transitive(a: Seq<char>, b: Seq<char>, c: Seq<char>)
    requires
        name_lt(a, b),
        name_lt(b, c),
    ensures
        name_lt(a, c),
    decreases a.len(),
{
    if a.len() > 0 && b.len() > 0 && c.len() > 0 {
        if a[0] == b[0] && b[0] == c[0] {
            lemma_lt_transitive(a.drop_first(), b.drop_first(), c.drop_first());
        }
    }
}

proof fn lemma_lt_total(a: Seq<char>, b: Seq<char>)
    ensures
        a == b || name_lt(a, b) || name_lt(b, a),
    decreases a.len(),
{
    if a.len() > 0 && b.len() > 0 {
        if a[0] == b[0] {
            lemma_lt_total(a.drop_first(), b.drop_first());
            if a.drop_first() == b.drop_first() {
                assert(a =~= seq![a[0]] + a.drop_first());
                assert(b =~= seq![b[0]] + b.drop_first());
            }
        } else {
            assert((a[0] as int) != (b[0] as int));
        }
    } else if a.len() == 0 && b.len() == 0 {
        assert(a =~= b);
    }
}

fn names_lt(a: &String, b: &str) -> (r: bool)
    ensures
        r == name_lt(a@, b@),
{
    let x = a.as_str();
    let n = x.unicode_len();
    let m = b.unicode_len();
    let mut i: usize = 0;
    proof {
        assert(a@.subrange(0, n as int) =~= a@);
        assert(b@.subrange(0, m as int) =~= b@);
    }
    while i < n && i < m
        invariant
            n == a@.len(),
            m == b@.len(),
            x@ == a@,
            i <= n,
            i <= m,
            name_lt(a@, b@) == name_lt(a@.subrange(i as int, n as int), b@.subrange(i as int, m as int)),
        decreases n - i,
    {
        let c = x.get_char(i);
        let d = b.get_char(i);
        proof {
            let xs = a@.subrange(i as int, n as int);
            let ys = b@.subrange(i as int, m as int);
            assert(xs[0] == c);
            assert(ys[0] == d);
            assert(xs.drop_first() =~= a@.subrange(i + 1, n as int));
            assert(ys.drop_first() =~= b@.subrange(i + 1, m as int));
        }
        if c != d {
            return (c as u32) < (d as u32);
        }
        i = i + 1;
    }
    i == n && i < m
}

fn names_eq(a: &String, b: &str) -> (r: bool)
    ensures
        r == (a@ == b@),
{
    let x = a.as_str();
    let n = x.unicode_len();
    let m = b.unicode_len();
    if n != m {
        return false;
    }
    let mut i: usize = 0;
    while i < n
        invariant
            n == a@.len(),
            m == b@.len(),
            n == m,
            x@ == a@,
            i <= n,
            forall|j: int| 0 <= j < i ==> a@[j] == b@[j],
        decreases n - i,
    {
        if x.get_char(i) != b.get_char(i) {
            return false;
        }
        i = i + 1;
    }
    proof {
        assert(a@ =~= b@);
    }
    true
}

// ---------------------------------------------------------------------------
// Errors
// ---------------------------------------------------------------------------

/// Why a volume operation is refused.
#[derive(Clone, Debug, PartialEq, Eq)]
pub enum BlockError {
    EmptyName,
    InvalidName,
    ZeroSize,
    ZeroBlockSize,
    UnalignedSize,
    SizeTooLarge,
    AlreadyExists(String),
    NotFound(String),
    ReadBeyondEnd,
    WriteBeyondEnd,
    ConcurrentModification,
}

/// The text of an error.
pub open spec fn block_error_text(e: BlockError) -> Seq<char> {
    match e {
        BlockError::EmptyName => "Volume name cannot be empty"@,
        BlockError::InvalidName => "Volume name must be alphanumeric with '-', '_' or '.'"@,
        BlockError::ZeroSize => "Volume size must be > 0"@,
        BlockError::ZeroBlockSize => "Block size must be > 0"@,
        BlockError::UnalignedSize => "Volume size must be a multiple of block size"@,
        BlockError::SizeTooLarge => "Volume size exceeds addressable memory for initialisation"@,
        BlockError::AlreadyExists(n) => "Volume already exists: "@ + n@,
        BlockError::NotFound(n) => "Volume not found: "@ + n@,
        BlockError::ReadBeyondEnd => "Read beyond end of volume"@,
        BlockError::WriteBeyondEnd => "Write beyond end of volume"@,
        BlockError::ConcurrentModification => "Volume modified concurrently"@,
    }
}

impl BlockError {
    /// The error as text.
    pub fn message(&self) -> (r: String)
        ensures
            r@ == block_error_text(*self),
    {
        match self {
            BlockError::EmptyName => String::from_str("Volume name cannot be empty"),
            BlockError::InvalidName => String::from_str(
                "Volume name must be alphanumeric with '-', '_' or '.'",
            ),
            BlockError::ZeroSize => String::from_str("Volume size must be > 0"),
            BlockError::ZeroBlockSize => String::from_str("Block size must be > 0"),
            BlockError::UnalignedSize => String::from_str(
                "Volume size must be a multiple of block size",
            ),
            BlockError::SizeTooLarge => String::from_str(
                "Volume size exceeds addressable memory for initialisation",
            ),
            BlockError::AlreadyExists(n) => String::from_str("Volume already exists: ").concat(
                n.as_str(),
            ),
            BlockError::NotFound(n) => String::from_str("Volume not found: ").concat(n.as_str()),
            BlockError::ReadBeyondEnd => String::from_str("Read beyond end of volume"),
            BlockError::WriteBeyondEnd => String::from_str("Write beyond end of volume"),
            BlockError::ConcurrentModification => String::from_str("Volume modified concurrently"),
        }
    }
}

/// Whether `name` may name a volume: not empty, and only allowed
/// characters.
pub fn validate_volume_name(name: &str) -> (r: Result<(), BlockError>)
    ensures
        name@.len() == 0 ==> r == Err::<(), BlockError>(BlockError::EmptyName),
        name@.len() > 0 && (exists|i: int| 0 <= i < name@.len() && !name_char_ok(#[trigger] name@[i]))
            ==> r == Err::<(), BlockError>(BlockError::InvalidName),
        name@.len() > 0 && (forall|i: int| 0 <= i < name@.len() ==> name_char_ok(#[trigger] name@[i]))
            ==> r is Ok,
{
    let n = name.unicode_len();
    if n == 0 {
        return Err(BlockError::EmptyName);
    }
    let mut i: usize = 0;
    while i < n
        invariant
            n == name@.len(),
            i <= n,
            forall|j: int| 0 <= j < i ==> name_char_ok(#[trigger] name@[j]),
        decreases n - i,
    {
        if !char_ok(name.get_char(i)) {
            return Err(BlockError::InvalidName);
        }
        i = i + 1;
    }
    Ok(())
}

/// The checks on a new volume's size, in order: not zero, a block size
/// that is not zero, a whole number of blocks, and small enough to be held
/// in memory.
pub open spec fn size_refusal(size: u64, block_size: u64) -> Option<BlockError> {
    if size == 0 {
        Some(BlockError::ZeroSize)
    } else if block_size == 0 {
        Some(BlockError::ZeroBlockSize)
    } else if size % block_size != 0 {
        Some(BlockError::UnalignedSize)
    } else if size > usize::MAX {
        Some(BlockError::SizeTooLarge)
    } else {
        None
    }
}

pub fn check_volume_size(size: u64, block_size: u64) -> (r: Result<(), BlockError>)
    ensures
        match size_refusal(size, block_size) {
            Some(e) => r == Err::<(), BlockError>(e),
            None => r is Ok,
        },
{
    if size == 0 {
        return Err(BlockError::ZeroSize);
    }
    if block_size == 0 {
        return Err(BlockError::ZeroBlockSize);
    }
    if size % block_size != 0 {
        return Err(BlockError::UnalignedSize);
    }
    if size as u128 > usize::MAX as u128 {
        return Err(BlockError::SizeTooLarge);
    }
    Ok(())
}

// ---------------------------------------------------------------------------
// Volumes and the catalog
// ---------------------------------------------------------------------------

/// A block volume: its name, size, block size, the capsule holding its
/// bytes, when it was made and last written, and its version.
#[derive(Clone, Debug)]
pub struct BlockVolume {
    name: String,
    size: u64,
    block_size: u64,
    capsule_id: u128,
    created_at: u64,
    updated_at: u64,
    version: u64,
}

pub struct VolumeView {
    pub name: Seq<char>,
    pub size: u64,
    pub block_size: u64,
    pub capsule_id: u128,
    pub created_at: u64,
    pub updated_at: u64,
    pub version: u64,
}

impl View for BlockVolume {
    type V = VolumeView;

    closed spec fn view(&self) -> VolumeView {
        VolumeView {
            name: self.name@,
            size: self.size,
            block_size: self.block_size,
            capsule_id: self.capsule_id,
            created_at: self.created_at,
            updated_at: self.updated_at,
            version: self.version,
        }
    }
}

impl BlockVolume {
    /// A volume as it was stored.
    pub fn from_parts(
        name: String,
        size: u64,
        block_size: u64,
        capsule_id: u128,
        created_at: u64,
        updated_at: u64,
        version: u64,
    ) -> (r: Self)
        ensures
            r@ == (VolumeView {
                name: name@,
                size,
                block_size,
                capsule_id,
                created_at,
                updated_at,
                version,
            }),
    {
        BlockVolume { name, size, block_size, capsule_id, created_at, updated_at, version }
    }

    pub fn name(&self) -> (r: &str)
        ensures
            r@ == self@.name,
    {
        self.name.as_str()
    }

    pub fn size(&self) -> (r: u64)
        ensures
            r == self@.size,
    {
        self.size
    }

    pub fn block_size(&self) -> (r: u64)
        ensures
            r == self@.block_size,
    {
        self.block_size
    }

    pub fn capsule_id(&self) -> (r: u128)
        ensures
            r == self@.capsule_id,
    {
        self.capsule_id
    }

    pub fn created_at(&self) -> (r: u64)
        ensures
            r == self@.created_at,
    {
        self.created_at
    }

    pub fn updated_at(&self) -> (r: u64)
        ensures
            r == self@.updated_at,
    {
        self.updated_at
    }

    pub fn version(&self) -> (r: u64)
        ensures
            r == self@.version,
    {
        self.version
    }

    pub fn copy(&self) -> (r: Self)
        ensures
            r@ == self@,
    {
        BlockVolume {
            name: self.name.clone(),
            size: self.size,
            block_size: self.block_size,
            capsule_id: self.capsule_id,
            created_at: self.created_at,
            updated_at: self.updated_at,
            version: self.version,
        }
    }
}

pub open spec fn volume_views(s: Seq<BlockVolume>) -> Seq<VolumeView> {
    s.map_values(|v: BlockVolume| v@)
}

/// Names strictly increase along the sequence.
pub open spec fn sorted_by_name(s: Seq<VolumeView>) -> bool {
    forall|i: int, j: int| 0 <= i < j < s.len() ==> name_lt(s[i].name, s[j].name)
}

/// Position of the volume named `name`.
pub open spec fn find_volume(s: Seq<VolumeView>, name: Seq<char>) -> Option<int> {
    if exists|i: int| 0 <= i < s.len() && s[i].name == name {
        Some(choose|i: int| 0 <= i < s.len() && s[i].name == name)
    } else {
        None
    }
}

/// The catalog of block volumes, in name order.
pub struct BlockCatalog {
    volumes: Vec<BlockVolume>,
}

/// What a pending write needs: the volume's capsule and version when the
/// write began.
#[derive(Clone, Copy, Debug, PartialEq, Eq, Structural)]
pub struct WriteTicket {
    pub capsule_id: u128,
    pub version: u64,
}

impl BlockCatalog {
    #[verifier::type_invariant]
    spec fn sorted(self) -> bool {
        sorted_by_name(volume_views(self.volumes@))
    }

    /// The volumes, in name order.
    pub closed spec fn view(self) -> Seq<VolumeView> {
        volume_views(self.volumes@)
    }

    pub fn new() -> (r: Self)
        ensures
            r.view() == Seq::<VolumeView>::empty(),
    {
        BlockCatalog { volumes: Vec::new() }
    }

    /// Where `name` is, or would go.
    fn locate(&self, name: &str) -> (r: (usize, bool))
        ensures
            r.0 <= self.view().len(),
            r.1 ==> r.0 < self.view().len() && self.view()[r.0 as int].name == name@,
            forall|i: int| 0 <= i < r.0 ==> name_lt(#[trigger] self.view()[i].name, name@),
            !r.1 ==> forall|i: int|
                r.0 <= i < self.view().len() ==> name_lt(name@, #[trigger] self.view()[i].name),
    {
        proof {
            use_type_invariant(self);
        }
        let ghost s = self.view();
        let mut i: usize = 0;
        while i < self.volumes.len()
            invariant
                s == self.view(),
                sorted_by_name(s),
                i <= s.len(),
                forall|j: int| 0 <= j < i ==> name_lt(#[trigger] s[j].name, name@),
            decreases s.len() - i,
        {
            if !names_lt(&self.volumes[i].name, name) {
                let eq = names_eq(&self.volumes[i].name, name);
                proof {
                    assert(s[i as int].name == self.volumes@[i as int].name@);
                    if !eq {
                        lemma_lt_total(s[i as int].name, name@);
                        assert forall|k: int| i <= k < s.len() implies name_lt(
                            name@,
                            #[trigger] s[k].name,
                        ) by {
                            if k > i {
                                lemma_lt_transitive(name@, s[i as int].name, s[k].name);
                            }
                        }
                    }
                }
                return (i, eq);
            }
            proof {
                assert(s[i as int].name == self.volumes@[i as int].name@);
            }
            i = i + 1;
        }
        (i, false)
    }

    /// The checks before a volume is created: a valid name, a valid size,
    /// and no volume of that name yet. On success, the number of zero bytes
    /// the new capsule must hold.
    pub fn prepare_create(&self, name: &str, size: u64, block_size: u64) -> (r: Result<
        usize,
        BlockError,
    >)
        ensures
            match r {
                Ok(n) => {
                    &&& name@.len() > 0
                    &&& forall|i: int| 0 <= i < name@.len() ==> name_char_ok(#[trigger] name@[i])
                    &&& size_refusal(size, block_size) is None
                    &&& find_volume(self.view(), name@) is None
                    &&& n == size
                },
                Err(BlockError::EmptyName) => name@.len() == 0,
                Err(BlockError::InvalidName) => name@.len() > 0 && exists|i: int|
                    0 <= i < name@.len() && !name_char_ok(#[trigger] name@[i]),
                Err(BlockError::AlreadyExists(n)) => {
                    &&& n@ == name@
                    &&& find_volume(self.view(), name@) is Some
                    &&& size_refusal(size, block_size) is None
                },
                Err(e) => size_refusal(size, block_size) == Some(e) && name@.len() > 0,
            },
    {
        validate_volume_name(name)?;
        check_volume_size(size, block_size)?;
        let (_, found) = self.locate(name);
        if found {
            return Err(BlockError::AlreadyExists(name.to_owned()));
        }
        proof {
            assert forall|i: int| 0 <= i < self.view().len() implies self.view()[i].name
                != name@ by {
                lemma_lt_irreflexive(name@);
            }
        }
        Ok(size as usize)
    }

    /// Records a new volume, version 1, made at `now`, whose bytes are in
    /// `capsule_id`; refused when a volume of that name exists by now.
    pub fn commit_create(
        &mut self,
        name: &str,
        size: u64,
        block_size: u64,
        capsule_id: u128,
        now: u64,
    ) -> (r: Result<BlockVolume, BlockError>)
        ensures
            ({
                let v = VolumeView {
                    name: name@,
                    size,
                    block_size,
                    capsule_id,
                    created_at: now,
                    updated_at: now,
                    version: 1,
                };
                match r {
                    Ok(vol) => {
                        &&& find_volume(old(self).view(), name@) is None
                        &&& vol@ == v
                        &&& exists|p: int|
                            0 <= p <= old(self).view().len() && final(self).view() == old(self).view().insert(p, v)
                    },
                    Err(e) => {
                        &&& find_volume(old(self).view(), name@) is Some
                        &&& e matches BlockError::AlreadyExists(n) && n@ == name@
                        &&& final(self).view() == old(self).view()
                    },
                }
            }),
    {
        proof {
            use_type_invariant(&*self);
        }
        let (p, found) = self.locate(name);
        if found {
            return Err(BlockError::AlreadyExists(name.to_owned()));
        }
        proof {
            assert forall|i: int| 0 <= i < self.view().len() implies self.view()[i].name
                != name@ by {
                lemma_lt_irreflexive(name@);
            }
        }
        let vol = BlockVolume {
            name: name.to_owned(),
            size,
            block_size,
            capsule_id,
            created_at: now,
            updated_at: now,
            version: 1,
        };
        let out = vol.copy();
        let ghost s = self.view();
        let ghost vv = vol@;
        let mut vols: Vec<BlockVolume> = Vec::new();
        std::mem::swap(&mut vols, &mut self.volumes);
        vols.insert(p, vol);
        proof {
            assert(volume_views(vols@) =~= s.insert(p as int, vv));
            let t = volume_views(vols@);
            assert forall|i: int, j: int| 0 <= i < j < t.len() implies name_lt(
                t[i].name,
                t[j].name,
            ) by {
                if j < p {
                    assert(t[i] == s[i] && t[j] == s[j]);
                } else if j == p {
                    assert(t[i] == s[i]);
                } else if i < p {
                    assert(t[i] == s[i] && t[j] == s[j - 1]);
                    lemma_lt_transitive(s[i].name, name@, s[j - 1].name);
                } else if i == p {
                    assert(t[j] == s[j - 1]);
                } else {
                    assert(t[i] == s[i - 1] && t[j] == s[j - 1]);
                }
            }
        }
        self.volumes = vols;
        Ok(out)
    }

    /// Adds a stored volume, replacing any volume of the same name.
    pub fn restore(&mut self, vol: BlockVolume)
        ensures
            exists|p: int|
                0 <= p <= old(self).view().len() && (final(self).view() == old(self).view().insert(
                    p,
                    vol@,
                ) || (p < old(self).view().len() && old(self).view()[p].name == vol@.name
                    && final(self).view() == old(self).view().update(p, vol@))),
    {
        proof {
            use_type_invariant(&*self);
        }
        let (p, found) = self.locate(vol.name.as_str());
        let ghost s = self.view();
        let ghost vv = vol@;
        let mut vols: Vec<BlockVolume> = Vec::new();
        std::mem::swap(&mut vols, &mut self.volumes);
        if found {
            vols.set(p, vol);
            proof {
                assert(volume_views(vols@) =~= s.update(p as int, vv));
                let t = volume_views(vols@);
                assert forall|i: int, j: int| 0 <= i < j < t.len() implies name_lt(
                    t[i].name,
                    t[j].name,
                ) by {
                    if i != p && j != p {
                        assert(t[i] == s[i] && t[j] == s[j]);
                    } else if i == p {
                        assert(t[j] == s[j]);
                    } else {
                        assert(t[i] == s[i]);
                    }
                }
            }
        } else {
            vols.insert(p, vol);
            proof {
                assert(volume_views(vols@) =~= s.insert(p as int, vv));
                let t = volume_views(vols@);
                assert forall|i: int, j: int| 0 <= i < j < t.len() implies name_lt(
                    t[i].name,
                    t[j].name,
                ) by {
                    if j < p {
                        assert(t[i] == s[i] && t[j] == s[j]);
                    } else if j == p {
                        assert(t[i] == s[i]);
                    } else if i < p {
                        assert(t[i] == s[i] && t[j] == s[j - 1]);
                        lemma_lt_transitive(s[i].name, vv.name, s[j - 1].name);
                    } else if i == p {
                        assert(t[j] == s[j - 1]);
                    } else {
                        assert(t[i] == s[i - 1] && t[j] == s[j - 1]);
                    }
                }
            }
        }
        self.volumes = vols;
    }

    /// The volume named `name`.
    pub fn volume(&self, name: &str) -> (r: Result<BlockVolume, BlockError>)
        ensures
            match find_volume(self.view(), name@) {
                Some(i) => r matches Ok(v) && v@ == self.view()[i],
                None => r matches Err(BlockError::NotFound(n)) && n@ == name@,
            },
    {
        proof {
            use_type_invariant(self);
        }
        let (p, found) = self.locate(name);
        if found {
            proof {
                lemma_unique_names(self.view(), p as int, name@);
            }
            Ok(self.volumes[p].copy())
        } else {
            proof {
                assert forall|i: int| 0 <= i < self.view().len() implies self.view()[i].name
                    != name@ by {
                    lemma_lt_irreflexive(name@);
                }
            }
            Err(BlockError::NotFound(name.to_owned()))
        }
    }

    /// All volumes, in name order.
    pub fn list_volumes(&self) -> (r: Vec<BlockVolume>)
        ensures
            volume_views(r@) == self.view(),
            sorted_by_name(volume_views(r@)),
    {
        proof {
            use_type_invariant(self);
        }
        let mut r: Vec<BlockVolume> = Vec::new();
        let mut i: usize = 0;
        while i < self.volumes.len()
            invariant
                i <= self.volumes@.len(),
                r@.len() == i,
                forall|j: int| 0 <= j < i ==> (#[trigger] r@[j])@ == self.volumes@[j]@,
            decreases self.volumes@.len() - i,
        {
            r.push(self.volumes[i].copy());
            i = i + 1;
        }
        proof {
            assert(volume_views(r@) =~= volume_views(self.volumes@));
        }
        r
    }

    /// Forgets the volume named `name`, giving back the capsule that held
    /// its bytes (to be reclaimed).
    pub fn delete_volume(&mut self, name: &str) -> (r: Result<u128, BlockError>)
        ensures
            match find_volume(old(self).view(), name@) {
                Some(i) => r == Ok::<u128, BlockError>(old(self).view()[i].capsule_id) && final(self).view() == old(self).view().remove(i),
                None => r matches Err(BlockError::NotFound(n)) && n@ == name@ && final(self).view()
                    == old(self).view(),
            },
    {
        proof {
            use_type_invariant(&*self);
        }
        let (p, found) = self.locate(name);
        if !found {
            proof {
                assert forall|i: int| 0 <= i < self.view().len() implies self.view()[i].name
                    != name@ by {
                    lemma_lt_irreflexive(name@);
                }
            }
            return Err(BlockError::NotFound(name.to_owned()));
        }
        proof {
            lemma_unique_names(self.view(), p as int, name@);
        }
        let ghost s = self.view();
        let mut vols: Vec<BlockVolume> = Vec::new();
        std::mem::swap(&mut vols, &mut self.volumes);
        let v = vols.remove(p);
        proof {
            assert(volume_views(vols@) =~= s.remove(p as int));
            let t = volume_views(vols@);
            assert forall|i: int, j: int| 0 <= i < j < t.len() implies name_lt(
                t[i].name,
                t[j].name,
            ) by {
                let i2 = if i < p { i } else { i + 1 };
                let j2 = if j < p { j } else { j + 1 };
                assert(t[i] == s[i2] && t[j] == s[j2]);
            }
        }
        self.volumes = vols;
        Ok(v.capsule_id)
    }

    /// The checks before a read of `len` bytes at `offset`: the volume must
    /// exist and hold the range. On success, the capsule to read from.
    pub fn check_read(&self, name: &str, offset: u64, len: usize) -> (r: Result<u128, BlockError>)
        requires
            offset + len <= u64::MAX,
        ensures
            match find_volume(self.view(), name@) {
                Some(i) => if offset + len > self.view()[i].size {
                    r == Err::<u128, BlockError>(BlockError::ReadBeyondEnd)
                } else {
                    r == Ok::<u128, BlockError>(self.view()[i].capsule_id)
                },
                None => r matches Err(BlockError::NotFound(n)) && n@ == name@,
            },
    {
        let v = self.volume(name)?;
        if offset + len as u64 > v.size {
            return Err(BlockError::ReadBeyondEnd);
        }
        Ok(v.capsule_id)
    }

    /// The checks before a write of `len` bytes at `offset`: nothing to do
    /// for an empty write; otherwise the volume must exist and hold the
    /// range, and the write starts from its present capsule and version.
    pub fn prepare_write(&self, name: &str, offset: u64, len: usize) -> (r: Result<
        Option<WriteTicket>,
        BlockError,
    >)
        requires
            offset + len <= u64::MAX,
        ensures
            len == 0 ==> r == Ok::<Option<WriteTicket>, BlockError>(None),
            len > 0 ==> match find_volume(self.view(), name@) {
                Some(i) => if offset + len > self.view()[i].size {
                    r == Err::<Option<WriteTicket>, BlockError>(BlockError::WriteBeyondEnd)
                } else {
                    r == Ok::<Option<WriteTicket>, BlockError>(
                        Some(
                            WriteTicket {
                                capsule_id: self.view()[i].capsule_id,
                                version: self.view()[i].version,
                            },
                        ),
                    )
                },
                None => r matches Err(BlockError::NotFound(n)) && n@ == name@,
            },
    {
        if len == 0 {
            return Ok(None);
        }
        let v = self.volume(name)?;
        if offset + len as u64 > v.size {
            return Err(BlockError::WriteBeyondEnd);
        }
        Ok(Some(WriteTicket { capsule_id: v.capsule_id, version: v.version }))
    }

    /// Finishes a write that began with `ticket`: when the volume still has
    /// the ticket's capsule and version, it moves to `new_capsule`, is
    /// marked written at `now` and gets the next version; the capsule it
    /// held before comes back, to be reclaimed. When another write came
    /// first, nothing changes and the write is refused.
    pub fn commit_write(
        &mut self,
        name: &str,
        ticket: WriteTicket,
        new_capsule: u128,
        now: u64,
    ) -> (r: Result<u128, BlockError>)
        ensures
            match find_volume(old(self).view(), name@) {
                Some(i) => {
                    let v = old(self).view()[i];
                    if v.version != ticket.version || v.capsule_id != ticket.capsule_id {
                        r == Err::<u128, BlockError>(BlockError::ConcurrentModification)
                            && final(self).view() == old(self).view()
                    } else {
                        &&& r == Ok::<u128, BlockError>(ticket.capsule_id)
                        &&& final(self).view() == old(self).view().update(
                            i,
                            VolumeView {
                                capsule_id: new_capsule,
                                updated_at: now,
                                version: if v.version < u64::MAX {
                                    (v.version + 1) as u64
                                } else {
                                    v.version
                                },
                                ..v
                            },
                        )
                    }
                },
                None => r matches Err(BlockError::NotFound(n)) && n@ == name@ && final(self).view()
                    == old(self).view(),
            },
    {
        proof {
            use_type_invariant(&*self);
        }
        let (p, found) = self.locate(name);
        if !found {
            proof {
                assert forall|i: int| 0 <= i < self.view().len() implies self.view()[i].name
                    != name@ by {
                    lemma_lt_irreflexive(name@);
                }
            }
            return Err(BlockError::NotFound(name.to_owned()));
        }
        proof {
            lemma_unique_names(self.view(), p as int, name@);
        }
        let cur = self.volumes[p].copy();
        if cur.version != ticket.version || cur.capsule_id != ticket.capsule_id {
            return Err(BlockError::ConcurrentModification);
        }
        let updated = BlockVolume {
            name: cur.name,
            size: cur.size,
            block_size: cur.block_size,
            capsule_id: new_capsule,
            created_at: cur.created_at,
            updated_at: now,
            version: cur.version.saturating_add(1),
        };
        let ghost s = self.view();
        let ghost uv = updated@;
        let mut vols: Vec<BlockVolume> = Vec::new();
        std::mem::swap(&mut vols, &mut self.volumes);
        vols.set(p, updated);
        proof {
            assert(volume_views(vols@) =~= s.update(p as int, uv));
            let t = volume_views(vols@);
            assert forall|i: int, j: int| 0 <= i < j < t.len() implies name_lt(
                t[i].name,
                t[j].name,
            ) by {
                assert(t[i].name == s[i].name && t[j].name == s[j].name);
            }
        }
        self.volumes = vols;
        Ok(ticket.capsule_id)
    }
}

proof fn lemma_unique_names(s: Seq<VolumeView>, p: int, name: Seq<char>)
    requires
        sorted_by_name(s),
        0 <= p < s.len(),
        s[p].name == name,
    ensures
        find_volume(s, name) == Some(p),
{
    let k = choose|i: int| 0 <= i < s.len() && s[i].name == name;
    if k < p {
        assert(name_lt(s[k].name, s[p].name));
        lemma_lt_irreflexive(name);
    } else if k > p {
        assert(name_lt(s[p].name, s[k].name));
        lemma_lt_irreflexive(name);
    }
}

/// `buffer` with `data` written over it at `offset`.
pub fn overwrite(buffer: &mut Vec<u8>, offset: usize, data: &[u8])
    requires
        offset + data@.len() <= old(buffer)@.len(),
    ensures
        final(buffer)@ == old(buffer)@.subrange(0, offset as int) + data@ + old(buffer)@.subrange(
            offset + data@.len(),
            old(buffer)@.len() as int,
        ),
{
    let n = buffer.len();
    let mut i: usize = 0;
    while i < data.len()
        invariant
            n == buffer@.len(),
            offset + data@.len() <= buffer@.len(),
            buffer@.len() == old(buffer)@.len(),
            i <= data@.len(),
            forall|k: int| 0 <= k < offset ==> buffer@[k] == old(buffer)@[k],
            forall|k: int| 0 <= k < i ==> buffer@[offset + k] == data@[k],
            forall|k: int| offset + i <= k < buffer@.len() ==> buffer@[k] == old(buffer)@[k],
        decreases data@.len() - i,
    {
        buffer.set(offset + i, data[i]);
        i = i + 1;
    }
    proof {
        assert(buffer@ =~= old(buffer)@.subrange(0, offset as int) + data@ + old(buffer)@.subrange(
            offset + data@.len(),
            old(buffer)@.len() as int,
        ));
    }
}

/// A write that commits cannot commit twice: once a write has moved a
/// volume on from its ticket (to a new capsule, or to a new version), a
/// second write holding the same ticket is refused.
pub proof fn lemma_stale_ticket_refused(v: VolumeView, ticket: WriteTicket, new_capsule: u128, now: u64)
    requires
        v.version == ticket.version,
        v.capsule_id == ticket.capsule_id,
        new_capsule != ticket.capsule_id || v.version < u64::MAX,
    ensures
        ({
            let w = VolumeView {
                capsule_id: new_capsule,
                updated_at: now,
                version: if v.version < u64::MAX {
                    (v.version + 1) as u64
                } else {
                    v.version
                },
                ..v
            };
            w.version != ticket.version || w.capsule_id != ticket.capsule_id
        }),
{
}

} // verus!
