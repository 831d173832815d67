//! Federation zones: the directory of remote zones, matched by name without
//! regard to ASCII case and kept in name order, and the first message sent
//! to a zone.

use vstd::prelude::*;
use vstd::string::StrSliceExecFns;

verus! {

/// A remote zone: its name, its endpoint and the secret it expects.
#[derive(Clone, Debug)]
pub struct ZoneConfig {
    pub name: String,
    pub endpoint: String,
    pub secret_key: String,
}

pub struct ZoneView {
    pub name: Seq<char>,
    pub endpoint: Seq<char>,
    pub secret_key: Seq<char>,
}

impl View for ZoneConfig {
    type V = ZoneView;

    open spec fn view(&self) -> ZoneView {
        ZoneView { name: self.name@, endpoint: self.endpoint@, secret_key: self.secret_key@ }
    }
}

impl ZoneConfig {
    pub fn copy(&self) -> (r: Self)
        ensures
            r@ == self@,
    {
        ZoneConfig {
            name: self.name.clone(),
            endpoint: self.endpoint.clone(),
            secret_key: self.secret_key.clone(),
        }
    }
}

// ---------------------------------------------------------------------------
// Characters
// ---------------------------------------------------------------------------

/// Unicode white space, as `char::is_whitespace` defines it.
pub open spec fn is_whitespace(c: char) -> bool {
    let u = c as u32;
    (9 <= u <= 13) || u == 32 || u == 0x85 || u == 0xA0 || u == 0x1680 || (0x2000 <= u <= 0x200A)
        || u == 0x2028 || u == 0x2029 || u == 0x202F || u == 0x205F || u == 0x3000
}

/// The string without leading white space.
pub open spec fn trim_start(s: Seq<char>) -> Seq<char>
    decreases s.len(),
{
    if s.len() > 0 && is_whitespace(s[0]) {
        trim_start(s.drop_first())
    } else {
        s
    }
}

/// The string without trailing white space.
pub open spec fn trim_end(s: Seq<char>) -> Seq<char>
    decreases s.len(),
{
    if s.len() > 0 && is_whitespace(s.last()) {
        trim_end(s.drop_last())
    } else {
        s
    }
}

/// The string without leading or trailing white space.
pub open spec fn trim(s: Seq<char>) -> Seq<char> {
    trim_end(trim_start(s))
}

/// The ASCII lower-case form of a character.
pub open spec fn ascii_lower(c: char) -> int {
    if 65 <= c as u32 <= 90 {
        (c as u32) + 32
    } else {
        c as int
    }
}

/// Two strings are equal when ASCII letters are compared without case.
pub open spec fn eq_ignore_ascii_case(a: Seq<char>, b: Seq<char>) -> bool {
    a.len() == b.len() && forall|i: int| 0 <= i < a.len() ==> ascii_lower(a[i]) == ascii_lower(b[i])
}

/// `a` sorts strictly before `b` when both are lower-cased (ASCII only)
/// and compared character by character.
pub open spec fn lower_lt(a: Seq<char>, b: Seq<char>) -> bool
    decreases a.len(),
{
    if b.len() == 0 {
        false
    } else if a.len() == 0 {
        true
    } else if ascii_lower(a[0]) != ascii_lower(b[0]) {
        ascii_lower(a[0]) < ascii_lower(b[0])
    } else {
        lower_lt(a.drop_first(), b.drop_first())
    }
}

fn lower_char(c: char) -> (r: u32)
    ensures
        r == ascii_lower(c),
{
    let u = c as u32;
    if 65 <= u && u <= 90 {
        u + 32
    } else {
        u
    }
}

fn char_is_whitespace(c: char) -> (b: bool)
    ensures
        b == is_whitespace(c),
{
    let u = c as u32;
    (9 <= u && u <= 13) || u == 32 || u == 0x85 || u == 0xA0 || u == 0x1680 || (0x2000 <= u && u
        <= 0x200A) || u == 0x2028 || u == 0x2029 || u == 0x202F || u == 0x205F || u == 0x3000
}

/// The characters of `s`.
pub(crate) fn chars_of(s: &str) -> (r: Vec<char>)
    ensures
        r@ == s@,
{
    let n = s.unicode_len();
    let mut r: Vec<char> = Vec::new();
    let mut i: usize = 0;
    while i < n
        invariant
            n == s@.len(),
            i <= n,
            r@ == s@.subrange(0, i as int),
        decreases n - i,
    {
        let c = s.get_char(i);
        proof {
            assert(s@.subrange(0, i + 1) =~= s@.subrange(0, i as int).push(c));
        }
        r.push(c);
        i = i + 1;
    }
    proof {
        assert(s@.subrange(0, i as int) =~= s@);
    }
    r
}

proof fn lemma_trim_start(s: Seq<char>, a: int)
    requires
        0 <= a <= s.len(),
        forall|i: int| 0 <= i < a ==> is_whitespace(s[i]),
        a < s.len() ==> !is_whitespace(s[a]),
    ensures
        trim_start(s) == s.subrange(a, s.len() as int),
    decreases a,
{
    if a > 0 {
        assert forall|i: int| 0 <= i < a - 1 implies is_whitespace(s.drop_first()[i]) by {
            assert(s.drop_first()[i] == s[i + 1]);
        }
        if a < s.len() {
            assert(s.drop_first()[a - 1] == s[a]);
        }
        lemma_trim_start(s.drop_first(), a - 1);
        assert(s.drop_first().subrange(a - 1, s.len() - 1) =~= s.subrange(a, s.len() as int));
    } else {
        assert(s.subrange(0, s.len() as int) =~= s);
    }
}

proof fn lemma_trim_end(s: Seq<char>, b: int)
    requires
        0 <= b <= s.len(),
        forall|i: int| b <= i < s.len() ==> is_whitespace(s[i]),
        b > 0 ==> !is_whitespace(s[b - 1]),
    ensures
        trim_end(s) == s.subrange(0, b),
    decreases s.len() - b,
{
    if b < s.len() {
        assert forall|i: int| b <= i < s.len() - 1 implies is_whitespace(s.drop_last()[i]) by {
            assert(s.drop_last()[i] == s[i]);
        }
        if b > 0 {
            assert(s.drop_last()[b - 1] == s[b - 1]);
        }
        lemma_trim_end(s.drop_last(), b);
        assert(s.drop_last().subrange(0, b) =~= s.subrange(0, b));
    } else {
        assert(s.subrange(0, s.len() as int) =~= s);
    }
}

/// `s` without leading and trailing white space.
pub fn trimmed(s: &str) -> (r: String)
    ensures
        r@ == trim(s@),
{
    let cs = chars_of(s);
    let n = cs.len();
    let mut a: usize = 0;
    while a < n && char_is_whitespace(cs[a])
        invariant
            n == cs@.len(),
            cs@ == s@,
            a <= n,
            forall|i: int| 0 <= i < a ==> is_whitespace(cs@[i]),
        decreases n - a,
    {
        a = a + 1;
    }
    proof {
        lemma_trim_start(s@, a as int);
    }
    let mut b: usize = n;
    while b > a && char_is_whitespace(cs[b - 1])
        invariant
            n == cs@.len(),
            cs@ == s@,
            a <= b <= n,
            forall|i: int| b <= i < n ==> is_whitespace(cs@[i]),
        decreases b,
    {
        b = b - 1;
    }
    proof {
        let t = s@.subrange(a as int, n as int);
        assert forall|i: int| (b - a) <= i < t.len() implies is_whitespace(t[i]) by {
            assert(t[i] == cs@[a + i]);
        }
        if b > a {
            assert(t[b - a - 1] == cs@[b - 1]);
        }
        lemma_trim_end(t, (b - a) as int);
        assert(t.subrange(0, (b - a) as int) =~= s@.subrange(a as int, b as int));
    }
    s.substring_char(a, b).to_owned()
}

fn eq_ignore_case(a: &String, b: &String) -> (r: bool)
    ensures
        r == eq_ignore_ascii_case(a@, b@),
{
    let x = chars_of(a.as_str());
    let y = chars_of(b.as_str());
    if x.len() != y.len() {
        return false;
    }
    let mut i: usize = 0;
    while i < x.len()
        invariant
            x@ == a@,
            y@ == b@,
            x@.len() == y@.len(),
            i <= x@.len(),
            forall|j: int| 0 <= j < i ==> ascii_lower(x@[j]) == ascii_lower(y@[j]),
        decreases x@.len() - i,
    {
        if lower_char(x[i]) != lower_char(y[i]) {
            return false;
        }
        i = i + 1;
    }
    true
}

fn lower_less(a: &String, b: &String) -> (r: bool)
    ensures
        r == lower_lt(a@, b@),
{
    let x = chars_of(a.as_str());
    let y = chars_of(b.as_str());
    let mut i: usize = 0;
    proof {
        assert(x@.subrange(0, x@.len() as int) =~= x@);
        assert(y@.subrange(0, y@.len() as int) =~= y@);
    }
    while i < x.len() && i < y.len()
        invariant
            x@ == a@,
            y@ == b@,
            i <= x@.len(),
            i <= y@.len(),
            lower_lt(a@, b@) == lower_lt(x@.subrange(i as int, x@.len() as int), y@.subrange(
                i as int,
                y@.len() as int,
            )),
        decreases x@.len() - i,
    {
        let cx = lower_char(x[i]);
        let cy = lower_char(y[i]);
        proof {
            let xs = x@.subrange(i as int, x@.len() as int);
            let ys = y@.subrange(i as int, y@.len() as int);
            assert(xs[0] == x@[i as int]);
            assert(ys[0] == y@[i as int]);
            assert(xs.drop_first() =~= x@.subrange(i + 1, x@.len() as int));
            assert(ys.drop_first() =~= y@.subrange(i + 1, y@.len() as int));
        }
        if cx != cy {
            return cx < cy;
        }
        i = i + 1;
    }
    proof {
        assert(x@.subrange(i as int, x@.len() as int).len() == x@.len() - i);
    }
    i == x.len() && i < y.len()
}

// ---------------------------------------------------------------------------
// The directory
// ---------------------------------------------------------------------------

/// Inserts `z` into `s` after every zone whose name does not sort after
/// it (the step of a stable insertion sort by lower-cased name).
pub open spec fn insert_by_name(s: Seq<ZoneView>, z: ZoneView) -> Seq<ZoneView>
    decreases s.len(),
{
    if s.len() == 0 {
        seq![z]
    } else if lower_lt(z.name, s.last().name) {
        insert_by_name(s.drop_last(), z).push(s.last())
    } else {
        s.push(z)
    }
}

/// The zones in stable order of lower-cased name.
pub open spec fn sort_by_name(s: Seq<ZoneView>) -> Seq<ZoneView>
    decreases s.len(),
{
    if s.len() == 0 {
        s
    } else {
        insert_by_name(sort_by_name(s.drop_last()), s.last())
    }
}

/// Position of the first zone named `key` without regard to ASCII case.
pub open spec fn find_zone(s: Seq<ZoneView>, key: Seq<char>) -> Option<int> {
    if exists|i: int| 0 <= i < s.len() && eq_ignore_ascii_case(s[i].name, key) {
        Some(
            choose|i: int|
                0 <= i < s.len() && eq_ignore_ascii_case(s[i].name, key) && forall|j: int|
                    0 <= j < i ==> !eq_ignore_ascii_case(s[j].name, key),
        )
    } else {
        None
    }
}

/// The zones whose name differs from `key` without regard to ASCII case.
pub open spec fn zones_except(s: Seq<ZoneView>, key: Seq<char>) -> Seq<ZoneView>
    decreases s.len(),
{
    if s.len() == 0 {
        s
    } else if eq_ignore_ascii_case(s.last().name, key) {
        zones_except(s.drop_last(), key)
    } else {
        zones_except(s.drop_last(), key).push(s.last())
    }
}

pub open spec fn zone_views(s: Seq<ZoneConfig>) -> Seq<ZoneView> {
    s.map_values(|z: ZoneConfig| z@)
}

/// The known zones.
#[derive(Clone, Debug, Default)]
pub struct ZoneDirectory {
    pub zones: Vec<ZoneConfig>,
}

proof fn lemma_find_zone(s: Seq<ZoneView>, key: Seq<char>, i: int)
    requires
        0 <= i < s.len(),
        eq_ignore_ascii_case(s[i].name, key),
        forall|j: int| 0 <= j < i ==> !eq_ignore_ascii_case(s[j].name, key),
    ensures
        find_zone(s, key) == Some(i),
{
    let k = choose|k: int|
        0 <= k < s.len() && eq_ignore_ascii_case(s[k].name, key) && forall|j: int|
            0 <= j < k ==> !eq_ignore_ascii_case(s[j].name, key);
    if k < i {
    } else if k > i {
    }
}

impl ZoneDirectory {
    /// The name that a user's input stands for: the input without leading
    /// and trailing white space, or nothing when that is empty.
    pub fn resolve(name_or_alias: &str) -> (r: Option<String>)
        ensures
            match r {
                Some(s) => trim(name_or_alias@).len() > 0 && s@ == trim(name_or_alias@),
                None => trim(name_or_alias@).len() == 0,
            },
    {
        let t = trimmed(name_or_alias);
        if t.as_str().unicode_len() == 0 {
            None
        } else {
            Some(t)
        }
    }

    fn position(&self, key: &String) -> (r: Option<usize>)
        ensures
            match r {
                Some(i) => i < self.zones@.len() && find_zone(zone_views(self.zones@), key@) == Some(
                    i as int,
                ),
                None => find_zone(zone_views(self.zones@), key@) is None,
            },
    {
        let ghost zs = zone_views(self.zones@);
        let mut i: usize = 0;
        while i < self.zones.len()
            invariant
                i <= self.zones@.len(),
                zs == zone_views(self.zones@),
                forall|j: int| 0 <= j < i ==> !eq_ignore_ascii_case(zs[j].name, key@),
            decreases self.zones@.len() - i,
        {
            if eq_ignore_case(&self.zones[i].name, key) {
                proof {
                    lemma_find_zone(zs, key@, i as int);
                }
                return Some(i);
            }
            i = i + 1;
        }
        None
    }

    /// The zone named `name_or_alias` (trimmed, ASCII case ignored): the
    /// first such zone in the directory.
    pub fn get(&self, name_or_alias: &str) -> (r: Option<&ZoneConfig>)
        ensures
            match r {
                Some(z) => {
                    &&& trim(name_or_alias@).len() > 0
                    &&& find_zone(zone_views(self.zones@), trim(name_or_alias@)) matches Some(i)
                    &&& z@ == zone_views(self.zones@)[i]
                },
                None => trim(name_or_alias@).len() == 0 || find_zone(
                    zone_views(self.zones@),
                    trim(name_or_alias@),
                ) is None,
            },
    {
        let key = match ZoneDirectory::resolve(name_or_alias) {
            Some(k) => k,
            None => return None,
        };
        match self.position(&key) {
            Some(i) => Some(&self.zones[i]),
            None => None,
        }
    }

    /// Replaces the zone with the same name (ASCII case ignored) in place;
    /// when there is none, adds the zone and orders the directory by
    /// lower-cased name, keeping the order of equal names.
    pub fn upsert(&mut self, zone: ZoneConfig)
        ensures
            match find_zone(zone_views(old(self).zones@), zone.name@) {
                Some(i) => zone_views(final(self).zones@) == zone_views(old(self).zones@).update(
                    i,
                    zone@,
                ),
                None => zone_views(final(self).zones@) == sort_by_name(
                    zone_views(old(self).zones@).push(zone@),
                ),
            },
    {
        match self.position(&zone.name) {
            Some(i) => {
                let ghost zv = zone@;
                self.zones.set(i, zone);
                proof {
                    assert(zone_views(self.zones@) =~= zone_views(old(self).zones@).update(
                        i as int,
                        zv,
                    ));
                }
            },
            None => {
                let ghost zv = zone@;
                self.zones.push(zone);
                proof {
                    assert(zone_views(self.zones@) =~= zone_views(old(self).zones@).push(zv));
                }
                self.sort_zones();
            },
        }
    }

    /// Orders the zones stably by lower-cased name.
    fn sort_zones(&mut self)
        ensures
            zone_views(final(self).zones@) == sort_by_name(zone_views(old(self).zones@)),
    {
        let ghost src = zone_views(self.zones@);
        let mut sorted: Vec<ZoneConfig> = Vec::new();
        let mut i: usize = 0;
        while i < self.zones.len()
            invariant
                i <= self.zones@.len(),
                src == zone_views(self.zones@),
                zone_views(sorted@) == sort_by_name(src.subrange(0, i as int)),
            decreases self.zones@.len() - i,
        {
            let z = self.zones[i].copy();
            proof {
                assert(src.subrange(0, i + 1).drop_last() =~= src.subrange(0, i as int));
                assert(src.subrange(0, i + 1).last() == z@);
            }
            insert_zone_by_name(&mut sorted, z);
            i = i + 1;
        }
        proof {
            assert(src.subrange(0, i as int) =~= src);
        }
        self.zones = sorted;
    }

    /// Removes every zone named `name_or_alias` (trimmed, ASCII case
    /// ignored); says whether one was removed.
    pub fn remove(&mut self, name_or_alias: &str) -> (r: bool)
        ensures
            trim(name_or_alias@).len() == 0 ==> !r && final(self).zones@ == old(self).zones@,
            trim(name_or_alias@).len() > 0 ==> zone_views(final(self).zones@) == zones_except(
                zone_views(old(self).zones@),
                trim(name_or_alias@),
            ) && r == (final(self).zones@.len() != old(self).zones@.len()),
    {
        let key = match ZoneDirectory::resolve(name_or_alias) {
            Some(k) => k,
            None => return false,
        };
        let ghost src = zone_views(self.zones@);
        let before = self.zones.len();
        let mut kept: Vec<ZoneConfig> = Vec::new();
        let mut i: usize = 0;
        while i < self.zones.len()
            invariant
                i <= self.zones@.len(),
                src == zone_views(self.zones@),
                zone_views(kept@) == zones_except(src.subrange(0, i as int), key@),
            decreases self.zones@.len() - i,
        {
            proof {
                assert(src.subrange(0, i + 1).drop_last() =~= src.subrange(0, i as int));
                assert(src.subrange(0, i + 1).last() == self.zones@[i as int]@);
            }
            if !eq_ignore_case(&self.zones[i].name, &key) {
                let z = self.zones[i].copy();
                let ghost before_k = kept@;
                kept.push(z);
                proof {
                    assert(zone_views(kept@) =~= zone_views(before_k).push(z@));
                }
            }
            i = i + 1;
        }
        proof {
            assert(src.subrange(0, i as int) =~= src);
            lemma_zone_views_len(kept@);
        }
        self.zones = kept;
        before != self.zones.len()
    }
}

proof fn lemma_zone_views_len(s: Seq<ZoneConfig>)
    ensures
        zone_views(s).len() == s.len(),
{
}

/// Inserts `z` after every zone of `v` whose name does not sort after it.
fn insert_zone_by_name(v: &mut Vec<ZoneConfig>, z: ZoneConfig)
    ensures
        zone_views(final(v)@) == insert_by_name(zone_views(old(v)@), z@),
    decreases old(v)@.len(),
{
    let n = v.len();
    if n == 0 {
        v.push(z);
        proof {
            assert(zone_views(v@) =~= seq![z@]);
        }
        return;
    }
    if lower_less(&z.name, &v[n - 1].name) {
        let last = v.pop().unwrap();
        proof {
            assert(zone_views(v@) =~= zone_views(old(v)@).drop_last());
        }
        let ghost mid = v@;
        insert_zone_by_name(v, z);
        let ghost lv = last@;
        v.push(last);
        proof {
            assert(zone_views(old(v)@).last() == lv);
            assert(zone_views(v@) =~= insert_by_name(zone_views(mid), z@).push(lv));
        }
    } else {
        let ghost zv = z@;
        v.push(z);
        proof {
            assert(zone_views(v@) =~= zone_views(old(v)@).push(zv));
        }
    }
}

// ---------------------------------------------------------------------------
// Talking to a zone
// ---------------------------------------------------------------------------

/// The first message to a remote zone: who is calling, with the zone's
/// secret.
#[derive(Clone, Debug)]
pub struct HelloRequest {
    pub zone_id: String,
    pub secret: String,
}

/// Builds the messages this zone sends to its peers.
pub struct PeerClientManager {
    local_zone_id: String,
}

impl PeerClientManager {
    pub closed spec fn local_zone_id(self) -> Seq<char> {
        self.local_zone_id@
    }

    pub fn new(local_zone_id: String) -> (r: Self)
        ensures
            r.local_zone_id() == local_zone_id@,
    {
        PeerClientManager { local_zone_id }
    }

    /// The greeting for `zone`: this zone's id and the secret that `zone`
    /// expects.
    pub fn hello_request(&self, zone: &ZoneConfig) -> (r: HelloRequest)
        ensures
            r.zone_id@ == self.local_zone_id(),
            r.secret@ == zone.secret_key@,
    {
        HelloRequest { zone_id: self.local_zone_id.clone(), secret: zone.secret_key.clone() }
    }
}

// ---------------------------------------------------------------------------
// Laws
// ---------------------------------------------------------------------------

proof fn lemma_insert_by_name_contains(s: Seq<ZoneView>, z: ZoneView)
    ensures
        forall|x: ZoneView| #[trigger] insert_by_name(s, z).contains(x) <==> x == z || s.contains(x),
    decreases s.len(),
{
    if s.len() > 0 {
        lemma_insert_by_name_contains(s.drop_last(), z);
        let t = s.drop_last();
        assert(s =~= t.push(s.last()));
        assert forall|x: ZoneView| #[trigger] insert_by_name(s, z).contains(x) <==> x == z
            || s.contains(x) by {
            if lower_lt(z.name, s.last().name) {
                let r = insert_by_name(t, z);
                assert(insert_by_name(s, z) == r.push(s.last()));
                if r.push(s.last()).contains(x) {
                    let i = choose|i: int| 0 <= i < r.push(s.last()).len() && r.push(s.last())[i] == x;
                    if i < r.len() {
                        assert(r[i] == x);
                        assert(r.contains(x));
                        if x != z {
                            assert(t.contains(x));
                            let k = choose|k: int| 0 <= k < t.len() && t[k] == x;
                            assert(s[k] == x);
                        }
                    } else {
                        assert(s[s.len() - 1] == x);
                    }
                }
                if x == z || s.contains(x) {
                    if x == z {
                        assert(r.contains(z));
                        let i = choose|i: int| 0 <= i < r.len() && r[i] == z;
                        assert(r.push(s.last())[i] == z);
                    } else {
                        let k = choose|k: int| 0 <= k < s.len() && s[k] == x;
                        if k < t.len() {
                            assert(t[k] == x);
                            assert(r.contains(x));
                            let i = choose|i: int| 0 <= i < r.len() && r[i] == x;
                            assert(r.push(s.last())[i] == x);
                        } else {
                            assert(r.push(s.last())[r.len() as int] == x);
                        }
                    }
                }
            } else {
                assert(insert_by_name(s, z) == s.push(z));
                if s.push(z).contains(x) {
                    let i = choose|i: int| 0 <= i < s.push(z).len() && s.push(z)[i] == x;
                    if i < s.len() {
                        assert(s[i] == x);
                    }
                }
                if x == z {
                    assert(s.push(z)[s.len() as int] == z);
                } else if s.contains(x) {
                    let k = choose|k: int| 0 <= k < s.len() && s[k] == x;
                    assert(s.push(z)[k] == x);
                }
            }
        }
    } else {
        assert forall|x: ZoneView| #[trigger] insert_by_name(s, z).contains(x) <==> x == z
            || s.contains(x) by {
            assert(insert_by_name(s, z) == seq![z]);
            if seq![z].contains(x) {
                let i = choose|i: int| 0 <= i < 1 && seq![z][i] == x;
            }
            if x == z {
                assert(seq![z][0] == z);
            }
        }
    }
}

proof fn lemma_sort_by_name_contains(s: Seq<ZoneView>)
    ensures
        forall|x: ZoneView| #[trigger] sort_by_name(s).contains(x) <==> s.contains(x),
    decreases s.len(),
{
    if s.len() > 0 {
        let t = s.drop_last();
        lemma_sort_by_name_contains(t);
        lemma_insert_by_name_contains(sort_by_name(t), s.last());
        assert forall|x: ZoneView| #[trigger] sort_by_name(s).contains(x) <==> s.contains(x) by {
            if t.contains(x) {
                let k = choose|k: int| 0 <= k < t.len() && t[k] == x;
                assert(s[k] == x);
            }
            if s.contains(x) && x != s.last() {
                let k = choose|k: int| 0 <= k < s.len() && s[k] == x;
                assert(k < t.len());
                assert(t[k] == x);
            }
            if x == s.last() {
                assert(s[s.len() - 1] == x);
            }
        }
    }
}

proof fn lemma_replace_then_find(zs: Seq<ZoneView>, z: ZoneView, i: int)
    requires
        find_zone(zs, z.name) == Some(i),
    ensures
        0 <= i < zs.len(),
        find_zone(zs.update(i, z), z.name) == Some(i),
{
    let k0 = choose|k: int| 0 <= k < zs.len() && eq_ignore_ascii_case(zs[k].name, z.name);
    lemma_first_match(zs, z.name, k0);
    let after = zs.update(i, z);
    assert(eq_ignore_ascii_case(z.name, z.name));
    assert forall|j: int| 0 <= j < i implies !eq_ignore_ascii_case(after[j].name, z.name) by {
        assert(after[j] == zs[j]);
    }
    lemma_find_zone(after, z.name, i);
}

proof fn lemma_add_then_find(zs: Seq<ZoneView>, z: ZoneView)
    requires
        find_zone(zs, z.name) is None,
    ensures
        find_zone(sort_by_name(zs.push(z)), z.name) matches Some(j) && 0 <= j < sort_by_name(
            zs.push(z),
        ).len() && sort_by_name(zs.push(z))[j] == z,
{
    let pushed = zs.push(z);
    let after = sort_by_name(pushed);
    assert(eq_ignore_ascii_case(z.name, z.name));
    lemma_sort_by_name_contains(pushed);
    assert(pushed[zs.len() as int] == z);
    assert(pushed.contains(z));
    assert(after.contains(z));
    let j0 = choose|j: int| 0 <= j < after.len() && after[j] == z;
    lemma_first_match(after, z.name, j0);
    let j = choose|j: int|
        0 <= j < after.len() && eq_ignore_ascii_case(after[j].name, z.name) && forall|q: int|
            0 <= q < j ==> !eq_ignore_ascii_case(after[q].name, z.name);
    assert(after.contains(after[j]));
    assert(pushed.contains(after[j]));
    if after[j] != z {
        let k = choose|k: int| 0 <= k < pushed.len() && pushed[k] == after[j];
        assert(k < zs.len());
        assert(zs[k] == after[j]);
    }
}

/// A zone just added or replaced is the one found under its name: after
/// `upsert(z)`, looking `z`'s name up (ASCII case ignored) gives `z`.
pub proof fn lemma_upsert_then_find(zs: Seq<ZoneView>, z: ZoneView)
    ensures
        ({
            let after = match find_zone(zs, z.name) {
                Some(i) => zs.update(i, z),
                None => sort_by_name(zs.push(z)),
            };
            find_zone(after, z.name) matches Some(j) && 0 <= j < after.len() && after[j] == z
        }),
{
    match find_zone(zs, z.name) {
        Some(i) => {
            lemma_replace_then_find(zs, z, i);
        },
        None => {
            lemma_add_then_find(zs, z);
        },
    }
}

proof fn lemma_first_match(s: Seq<ZoneView>, key: Seq<char>, k: int)
    requires
        0 <= k < s.len(),
        eq_ignore_ascii_case(s[k].name, key),
    ensures
        exists|j: int|
            0 <= j < s.len() && eq_ignore_ascii_case(s[j].name, key) && forall|q: int|
                0 <= q < j ==> !eq_ignore_ascii_case(s[q].name, key),
    decreases k,
{
    if exists|q: int| 0 <= q < k && eq_ignore_ascii_case(s[q].name, key) {
        let q = choose|q: int| 0 <= q < k && eq_ignore_ascii_case(s[q].name, key);
        lemma_first_match(s, key, q);
    } else {
        assert(forall|q: int| 0 <= q < k ==> !eq_ignore_ascii_case(s[q].name, key));
    }
}

/// No two zones share a name, ASCII case ignored.
pub open spec fn names_distinct(s: Seq<ZoneView>) -> bool {
    forall|i: int, j: int|
        0 <= i < s.len() && 0 <= j < s.len() && i != j ==> !eq_ignore_ascii_case(
            #[trigger] s[i].name,
            #[trigger] s[j].name,
        )
}

proof fn lemma_eq_case_symmetric(a: Seq<char>, b: Seq<char>)
    ensures
        eq_ignore_ascii_case(a, b) == eq_ignore_ascii_case(b, a),
{
}

proof fn lemma_eq_case_transitive(a: Seq<char>, b: Seq<char>, c: Seq<char>)
    requires
        eq_ignore_ascii_case(a, b),
        eq_ignore_ascii_case(b, c),
    ensures
        eq_ignore_ascii_case(a, c),
{
}

/// Inserting a zone whose name no zone has keeps the names distinct.
proof fn lemma_insert_by_name_distinct(s: Seq<ZoneView>, z: ZoneView)
    requires
        names_distinct(s),
        forall|i: int| 0 <= i < s.len() ==> !eq_ignore_ascii_case(#[trigger] s[i].name, z.name),
    ensures
        names_distinct(insert_by_name(s, z)),
    decreases s.len(),
{
    if s.len() == 0 {
        assert(insert_by_name(s, z) == seq![z]);
    } else {
        let t = s.drop_last();
        let last = s.last();
        if lower_lt(z.name, last.name) {
            assert(names_distinct(t)) by {
                assert forall|i: int, j: int| 0 <= i < t.len() && 0 <= j < t.len() && i != j implies !eq_ignore_ascii_case(
                    #[trigger] t[i].name,
                    #[trigger] t[j].name,
                ) by {
                    assert(t[i] == s[i] && t[j] == s[j]);
                }
            }
            assert forall|i: int| 0 <= i < t.len() implies !eq_ignore_ascii_case(#[trigger] t[i].name, z.name) by {
                assert(t[i] == s[i]);
            }
            lemma_insert_by_name_distinct(t, z);
            let r = insert_by_name(t, z);
            lemma_insert_by_name_contains(t, z);
            let out = r.push(last);
            assert forall|i: int, j: int| 0 <= i < out.len() && 0 <= j < out.len() && i != j implies !eq_ignore_ascii_case(
                #[trigger] out[i].name,
                #[trigger] out[j].name,
            ) by {
                if i < r.len() && j < r.len() {
                    assert(out[i] == r[i] && out[j] == r[j]);
                } else {
                    let k = if i < r.len() { i } else { j };
                    assert(k < r.len());
                    assert(r.contains(r[k]));
                    assert(out[k] == r[k]);
                    assert(!eq_ignore_ascii_case(r[k].name, last.name)) by {
                        if r[k] == z {
                            assert(!eq_ignore_ascii_case(s[s.len() - 1].name, z.name));
                            lemma_eq_case_symmetric(last.name, z.name);
                        } else {
                            assert(t.contains(r[k]));
                            let q = choose|q: int| 0 <= q < t.len() && t[q] == r[k];
                            assert(s[q] == r[k]);
                            assert(s[s.len() - 1] == last);
                        }
                    }
                    lemma_eq_case_symmetric(r[k].name, last.name);
                }
            }
        } else {
            let out = s.push(z);
            assert forall|i: int, j: int| 0 <= i < out.len() && 0 <= j < out.len() && i != j implies !eq_ignore_ascii_case(
                #[trigger] out[i].name,
                #[trigger] out[j].name,
            ) by {
                if i < s.len() && j < s.len() {
                    assert(out[i] == s[i] && out[j] == s[j]);
                } else if i < s.len() {
                    assert(out[i] == s[i]);
                } else {
                    assert(out[j] == s[j]);
                    lemma_eq_case_symmetric(s[j].name, z.name);
                }
            }
        }
    }
}

proof fn lemma_sort_by_name_distinct(s: Seq<ZoneView>)
    requires
        names_distinct(s),
    ensures
        names_distinct(sort_by_name(s)),
    decreases s.len(),
{
    if s.len() > 0 {
        let t = s.drop_last();
        assert(names_distinct(t)) by {
            assert forall|i: int, j: int| 0 <= i < t.len() && 0 <= j < t.len() && i != j implies !eq_ignore_ascii_case(
                #[trigger] t[i].name,
                #[trigger] t[j].name,
            ) by {
                assert(t[i] == s[i] && t[j] == s[j]);
            }
        }
        lemma_sort_by_name_distinct(t);
        lemma_sort_by_name_contains(t);
        let st = sort_by_name(t);
        assert forall|i: int| 0 <= i < st.len() implies !eq_ignore_ascii_case(#[trigger] st[i].name, s.last().name) by {
            assert(st.contains(st[i]));
            let q = choose|q: int| 0 <= q < t.len() && t[q] == st[i];
            assert(s[q] == st[i]);
            assert(s[s.len() - 1] == s.last());
        }
        lemma_insert_by_name_distinct(st, s.last());
    }
}

/// Adding or replacing a zone a second time changes nothing: the second
/// `upsert(z)` finds `z` and puts it back in its own place.
pub proof fn lemma_upsert_idempotent(zs: Seq<ZoneView>, z: ZoneView)
    ensures
        ({
            let after = match find_zone(zs, z.name) {
                Some(i) => zs.update(i, z),
                None => sort_by_name(zs.push(z)),
            };
            match find_zone(after, z.name) {
                Some(j) => after.update(j, z) == after,
                None => false,
            }
        }),
{
    let after = match find_zone(zs, z.name) {
        Some(i) => zs.update(i, z),
        None => sort_by_name(zs.push(z)),
    };
    lemma_upsert_then_find(zs, z);
    let j = find_zone(after, z.name)->0;
    assert(after.update(j, z) =~= after);
}

/// Adding or replacing a zone keeps the names distinct (ASCII case
/// ignored).
pub proof fn lemma_upsert_keeps_names_distinct(zs: Seq<ZoneView>, z: ZoneView)
    requires
        names_distinct(zs),
    ensures
        names_distinct(
            match find_zone(zs, z.name) {
                Some(i) => zs.update(i, z),
                None => sort_by_name(zs.push(z)),
            },
        ),
{
    let after = match find_zone(zs, z.name) {
        Some(i) => zs.update(i, z),
        None => sort_by_name(zs.push(z)),
    };
    match find_zone(zs, z.name) {
        Some(i) => {
            lemma_replace_then_find(zs, z, i);
            let k0 = choose|k: int| 0 <= k < zs.len() && eq_ignore_ascii_case(zs[k].name, z.name);
            lemma_first_match(zs, z.name, k0);
            assert(eq_ignore_ascii_case(zs[i].name, z.name));
            assert forall|a: int, b: int| 0 <= a < after.len() && 0 <= b < after.len() && a != b implies !eq_ignore_ascii_case(
                #[trigger] after[a].name,
                #[trigger] after[b].name,
            ) by {
                if a != i && b != i {
                    assert(after[a] == zs[a] && after[b] == zs[b]);
                } else if a == i {
                    assert(after[b] == zs[b]);
                    if eq_ignore_ascii_case(z.name, zs[b].name) {
                        lemma_eq_case_transitive(zs[i].name, z.name, zs[b].name);
                    }
                } else {
                    assert(after[a] == zs[a]);
                    if eq_ignore_ascii_case(zs[a].name, z.name) {
                        lemma_eq_case_symmetric(zs[i].name, z.name);
                        lemma_eq_case_transitive(zs[a].name, z.name, zs[i].name);
                    }
                }
            }
        },
        None => {
            let pushed = zs.push(z);
            assert forall|a: int, b: int| 0 <= a < pushed.len() && 0 <= b < pushed.len() && a != b implies !eq_ignore_ascii_case(
                #[trigger] pushed[a].name,
                #[trigger] pushed[b].name,
            ) by {
                if a < zs.len() && b < zs.len() {
                    assert(pushed[a] == zs[a] && pushed[b] == zs[b]);
                } else if a < zs.len() {
                    assert(pushed[a] == zs[a]);
                    if eq_ignore_ascii_case(zs[a].name, z.name) {
                        lemma_first_match(zs, z.name, a);
                    }
                } else {
                    assert(pushed[b] == zs[b]);
                    if eq_ignore_ascii_case(z.name, zs[b].name) {
                        lemma_eq_case_symmetric(z.name, zs[b].name);
                        lemma_first_match(zs, z.name, b);
                    }
                }
            }
            lemma_sort_by_name_distinct(pushed);
        },
    }
}

proof fn lemma_zones_except_len(s: Seq<ZoneView>, key: Seq<char>)
    ensures
        zones_except(s, key).len() <= s.len(),
        zones_except(s, key).len() == s.len() <==> !(exists|i: int|
            0 <= i < s.len() && eq_ignore_ascii_case(#[trigger] s[i].name, key)),
    decreases s.len(),
{
    if s.len() > 0 {
        let t = s.drop_last();
        lemma_zones_except_len(t, key);
        if exists|i: int| 0 <= i < t.len() && eq_ignore_ascii_case(#[trigger] t[i].name, key) {
            let i = choose|i: int| 0 <= i < t.len() && eq_ignore_ascii_case(#[trigger] t[i].name, key);
            assert(s[i] == t[i]);
        }
        if exists|i: int| 0 <= i < s.len() && eq_ignore_ascii_case(#[trigger] s[i].name, key) {
            let i = choose|i: int| 0 <= i < s.len() && eq_ignore_ascii_case(#[trigger] s[i].name, key);
            if i < t.len() {
                assert(t[i] == s[i]);
            }
        }
        assert(s.last() == s[s.len() - 1]);
    }
}

/// Removing reports a change exactly when some zone bears the key (ASCII
/// case ignored); those zones, and only they, go.
pub proof fn lemma_remove_reports_match(zs: Seq<ZoneView>, key: Seq<char>)
    ensures
        (zones_except(zs, key).len() != zs.len()) == (exists|i: int|
            0 <= i < zs.len() && eq_ignore_ascii_case(#[trigger] zs[i].name, key)),
        forall|x: ZoneView| #[trigger] zones_except(zs, key).contains(x) <==> zs.contains(x)
            && !eq_ignore_ascii_case(x.name, key),
    decreases zs.len(),
{
    lemma_zones_except_len(zs, key);
    if zs.len() > 0 {
        let t = zs.drop_last();
        lemma_remove_reports_match(t, key);
        let r = zones_except(t, key);
        assert forall|x: ZoneView| #[trigger] zones_except(zs, key).contains(x) <==> zs.contains(x)
            && !eq_ignore_ascii_case(x.name, key) by {
            if t.contains(x) {
                let k = choose|k: int| 0 <= k < t.len() && t[k] == x;
                assert(zs[k] == x);
            }
            if zs.contains(x) && x != zs.last() {
                let k = choose|k: int| 0 <= k < zs.len() && zs[k] == x;
                assert(k < t.len());
                assert(t[k] == x);
            }
            if x == zs.last() {
                assert(zs[zs.len() - 1] == x);
            }
            if !eq_ignore_ascii_case(zs.last().name, key) {
                let out = r.push(zs.last());
                if out.contains(x) {
                    let k = choose|k: int| 0 <= k < out.len() && out[k] == x;
                    if k < r.len() {
                        assert(r[k] == x);
                    }
                }
                if r.contains(x) {
                    let k = choose|k: int| 0 <= k < r.len() && r[k] == x;
                    assert(out[k] == x);
                }
                if x == zs.last() {
                    assert(out[r.len() as int] == x);
                }
            }
        }
    }
}

/// The zones are in order of lower-cased name: none sorts before one that
/// comes ahead of it.
pub open spec fn sorted_by_name(s: Seq<ZoneView>) -> bool {
    forall|i: int, j: int| 0 <= i < j < s.len() ==> !lower_lt(#[trigger] s[j].name, #[trigger] s[i].name)
}

proof fn lemma_lower_lt_asym(a: Seq<char>, b: Seq<char>)
    ensures
        lower_lt(a, b) ==> !lower_lt(b, a),
    decreases a.len(),
{
    if a.len() > 0 && b.len() > 0 && ascii_lower(a[0]) == ascii_lower(b[0]) {
        lemma_lower_lt_asym(a.drop_first(), b.drop_first());
    }
}

proof fn lemma_lower_lt_neg_trans(a: Seq<char>, b: Seq<char>, c: Seq<char>)
    ensures
        lower_lt(a, c) ==> lower_lt(a, b) || lower_lt(b, c),
    decreases a.len(),
{
    if a.len() > 0 && b.len() > 0 && c.len() > 0 && ascii_lower(a[0]) == ascii_lower(b[0])
        && ascii_lower(b[0]) == ascii_lower(c[0]) {
        lemma_lower_lt_neg_trans(a.drop_first(), b.drop_first(), c.drop_first());
    }
}

/// Names equal without regard to ASCII case sort alike.
proof fn lemma_lower_lt_case(a: Seq<char>, a2: Seq<char>, b: Seq<char>)
    requires
        eq_ignore_ascii_case(a, a2),
    ensures
        lower_lt(a, b) == lower_lt(a2, b),
        lower_lt(b, a) == lower_lt(b, a2),
    decreases a.len(),
{
    if a.len() > 0 && b.len() > 0 {
        assert(ascii_lower(a[0]) == ascii_lower(a2[0]));
        assert(eq_ignore_ascii_case(a.drop_first(), a2.drop_first())) by {
            assert forall|i: int| 0 <= i < a.drop_first().len() implies ascii_lower(a.drop_first()[i])
                == ascii_lower(a2.drop_first()[i]) by {
                assert(ascii_lower(a[i + 1]) == ascii_lower(a2[i + 1]));
            }
        }
        lemma_lower_lt_case(a.drop_first(), a2.drop_first(), b.drop_first());
    }
}

proof fn lemma_insert_by_name_sorted(s: Seq<ZoneView>, z: ZoneView)
    requires
        sorted_by_name(s),
    ensures
        sorted_by_name(insert_by_name(s, z)),
    decreases s.len(),
{
    if s.len() == 0 {
        assert(insert_by_name(s, z) == seq![z]);
    } else {
        let t = s.drop_last();
        let last = s.last();
        assert(sorted_by_name(t)) by {
            assert forall|i: int, j: int| 0 <= i < j < t.len() implies !lower_lt(#[trigger] t[j].name, #[trigger] t[i].name) by {
                assert(t[i] == s[i] && t[j] == s[j]);
            }
        }
        assert(last == s[s.len() - 1]);
        if lower_lt(z.name, last.name) {
            lemma_insert_by_name_sorted(t, z);
            lemma_insert_by_name_contains(t, z);
            let r = insert_by_name(t, z);
            let out = r.push(last);
            assert forall|i: int, j: int| 0 <= i < j < out.len() implies !lower_lt(#[trigger] out[j].name, #[trigger] out[i].name) by {
                if j < r.len() {
                    assert(out[i] == r[i] && out[j] == r[j]);
                } else {
                    assert(out[j] == last);
                    assert(out[i] == r[i]);
                    assert(r.contains(r[i]));
                    if r[i] == z {
                        lemma_lower_lt_asym(z.name, last.name);
                    } else {
                        let q = choose|q: int| 0 <= q < t.len() && t[q] == r[i];
                        assert(s[q] == r[i]);
                    }
                }
            }
        } else {
            let out = s.push(z);
            assert forall|i: int, j: int| 0 <= i < j < out.len() implies !lower_lt(#[trigger] out[j].name, #[trigger] out[i].name) by {
                if j < s.len() {
                    assert(out[i] == s[i] && out[j] == s[j]);
                } else {
                    assert(out[j] == z);
                    assert(out[i] == s[i]);
                    if i < s.len() - 1 {
                        assert(!lower_lt(last.name, s[i].name));
                        lemma_lower_lt_neg_trans(z.name, last.name, s[i].name);
                    }
                }
            }
        }
    }
}

proof fn lemma_sort_by_name_sorted(s: Seq<ZoneView>)
    ensures
        sorted_by_name(sort_by_name(s)),
    decreases s.len(),
{
    if s.len() > 0 {
        lemma_sort_by_name_sorted(s.drop_last());
        lemma_insert_by_name_sorted(sort_by_name(s.drop_last()), s.last());
    }
}

/// Adding or replacing a zone keeps the zones in order of lower-cased
/// name.
pub proof fn lemma_upsert_keeps_order(zs: Seq<ZoneView>, z: ZoneView)
    requires
        sorted_by_name(zs),
    ensures
        sorted_by_name(
            match find_zone(zs, z.name) {
                Some(i) => zs.update(i, z),
                None => sort_by_name(zs.push(z)),
            },
        ),
{
    match find_zone(zs, z.name) {
        Some(i) => {
            lemma_replace_then_find(zs, z, i);
            let k0 = choose|k: int| 0 <= k < zs.len() && eq_ignore_ascii_case(zs[k].name, z.name);
            lemma_first_match(zs, z.name, k0);
            assert(eq_ignore_ascii_case(zs[i].name, z.name));
            let after = zs.update(i, z);
            assert forall|a: int, b: int| 0 <= a < b < after.len() implies !lower_lt(#[trigger] after[b].name, #[trigger] after[a].name) by {
                if a != i && b != i {
                    assert(after[a] == zs[a] && after[b] == zs[b]);
                } else if a == i {
                    assert(after[b] == zs[b]);
                    lemma_lower_lt_case(zs[i].name, z.name, zs[b].name);
                } else {
                    assert(after[a] == zs[a]);
                    lemma_lower_lt_case(zs[i].name, z.name, zs[a].name);
                }
            }
        },
        None => {
            lemma_sort_by_name_sorted(zs.push(z));
        },
    }
}

} // verus!
