use vstd::prelude::*;
use crate::error::KlsError;
use crate::params::Opts;
use crate::utils::{
    StrUtil, str_to_chars, chars_to_string, rfind_char, u64_to_string, i64_to_string, parse_i64,
    bytes_le, spec_rfind, spec_pad_start, spec_nat_str, spec_int_str, spec_is_i64, spec_int_val,
    lex_le, lemma_lex_le_total, lemma_lex_le_trans,
};

verus! {

// ---------------------------------------------------------------------------
// FilesType
// ---------------------------------------------------------------------------

/// The kind of one filesystem object, with its path. A symlink carries its
/// own path and the raw target read from the link, never the resolved target.
pub enum FilesType {
    Dir(String),
    File(String),
    Sym(String, String),
}

/// The path that a `FilesType` names; for a symlink, the link's own path.
pub open spec fn spec_type_path(t: &FilesType) -> Seq<char> {
    match t {
        FilesType::Dir(p) => p@,
        FilesType::File(p) => p@,
        FilesType::Sym(s, _) => s@,
    }
}

impl FilesType {
    /// The path of the object itself; for a symlink, the link, not the target.
    pub fn path(&self) -> (r: &String)
        ensures
            r@ == spec_type_path(self),
    {
        match self {
            FilesType::Dir(p) => p,
            FilesType::File(p) => p,
            FilesType::Sym(s, _) => s,
        }
    }

    /// Replaces the object's own path with its absolute form, which the
    /// caller resolved; a symlink's recorded target stays untouched.
    pub fn canonicalize(&self, abs: &String) -> (r: Result<FilesType, KlsError>)
        ensures
            r matches Ok(t) && match (t, self) {
                (FilesType::Dir(p), FilesType::Dir(_)) => p@ == abs@,
                (FilesType::File(p), FilesType::File(_)) => p@ == abs@,
                (FilesType::Sym(s, t2), FilesType::Sym(_, t1)) => s@ == abs@ && t2@ == t1@,
                _ => false,
            },
    {
        match self {
            FilesType::Dir(_) => Ok(FilesType::Dir(abs.clone())),
            FilesType::File(_) => Ok(FilesType::File(abs.clone())),
            FilesType::Sym(_, t) => Ok(FilesType::Sym(abs.clone(), t.clone())),
        }
    }
}

// ---------------------------------------------------------------------------
// Path text helpers
// ---------------------------------------------------------------------------

/// The file name of a path: what stands after the last `/`, the whole path
/// when there is no `/`; nothing when that text is empty. The listing hands
/// this only canonical paths, which never end in `/`; for a degenerate path
/// with a trailing slash it yields nothing, where the standard path type
/// would still name the last component.
pub open spec fn spec_name_of(p: Seq<char>) -> Option<Seq<char>> {
    match spec_rfind(p, '/') {
        None => if p.len() == 0 {
            None
        } else {
            Some(p)
        },
        Some(i) => if i + 1 < p.len() {
            Some(p.skip(i + 1))
        } else {
            None
        },
    }
}

/// The parent of a path: what stands before the last `/`, the root staying
/// `/`; nothing for the root itself or for a path without `/`.
pub open spec fn spec_up_of(p: Seq<char>) -> Option<Seq<char>> {
    match spec_rfind(p, '/') {
        None => None,
        Some(i) => if i == 0 {
            if p.len() == 1 {
                None
            } else {
                Some(seq!['/'])
            }
        } else {
            Some(p.take(i))
        },
    }
}

// ---------------------------------------------------------------------------
// Metadata snapshot
// ---------------------------------------------------------------------------

/// One entry's metadata, read once by the caller: the 16 low mode bits, the
/// byte size, the modification instant as Unix seconds and nanoseconds (or
/// nothing when it could not be read), the hard-link count, and the owner and
/// group names (or nothing where the lookup failed).
pub struct MetaInfo {
    pub perms: u16,
    pub size: u64,
    pub mtime: Option<(i64, u32)>,
    pub links: u64,
    pub user: Option<String>,
    pub group: Option<String>,
}

// ---------------------------------------------------------------------------
// Timestamps
// ---------------------------------------------------------------------------

/// The month abbreviation used in listings.
pub open spec fn spec_month_abbr(m: int) -> Seq<char> {
    if m == 1 {
        "Jan"@
    } else if m == 2 {
        "Feb"@
    } else if m == 3 {
        "Mar"@
    } else if m == 4 {
        "Apr"@
    } else if m == 5 {
        "May"@
    } else if m == 6 {
        "Jun"@
    } else if m == 7 {
        "Jul"@
    } else if m == 8 {
        "Aug"@
    } else if m == 9 {
        "Sep"@
    } else if m == 10 {
        "Oct"@
    } else if m == 11 {
        "Nov"@
    } else if m == 12 {
        "Dec"@
    } else {
        "Non"@
    }
}

/// Whether the instant `(mt_s, mt_n)` lies 180 days or more before
/// `(now_s, now_n)`.
pub open spec fn spec_is_old(mt_s: int, mt_n: int, now_s: int, now_n: int) -> bool {
    let cutoff = now_s - 15552000;
    mt_s < cutoff || (mt_s == cutoff && mt_n <= now_n)
}

/// The timestamp text: `Mon DD YYYY` for old instants, `Mon DD HH:MM` for
/// recent ones, with the day padded by a space and hour and minute by zeros.
pub open spec fn spec_modified_str(y: int, mo: int, d: int, h: int, mi: int, older: bool)
    -> Seq<char> {
    let head = spec_month_abbr(mo) + " "@ + spec_pad_start(spec_nat_str(d), 2, ' ') + " "@;
    if older {
        head + spec_int_str(y)
    } else {
        head + spec_pad_start(spec_nat_str(h), 2, '0') + ":"@ + spec_pad_start(
            spec_nat_str(mi), 2, '0')
    }
}

/// Relies on chrono: `DateTime::from_timestamp` and the `Datelike` and
/// `Timelike` accessors, whose documentation gives the month in 1..=12, the
/// day in 1..=31, the hour below 24 and the minute below 60. The calendar
/// fields follow the machine's local time zone.
#[verifier::external_body]
fn local_time_parts(secs: i64, nanos: u32) -> (r: (i32, u32, u32, u32, u32))
    ensures
        1 <= r.1 <= 12,
        1 <= r.2 <= 31,
        r.3 < 24,
        r.4 < 60,
{
    let dt = chrono::DateTime::from_timestamp(secs, nanos)
        .unwrap_or(chrono::DateTime::<chrono::Utc>::MIN_UTC)
        .with_timezone(&chrono::Local);
    (
        chrono::Datelike::year(&dt),
        chrono::Datelike::month(&dt),
        chrono::Datelike::day(&dt),
        chrono::Timelike::hour(&dt),
        chrono::Timelike::minute(&dt),
    )
}

fn month_abbr(m: u32) -> (r: &'static str)
    ensures
        r@ == spec_month_abbr(m as int),
{
    if m == 1 {
        "Jan"
    } else if m == 2 {
        "Feb"
    } else if m == 3 {
        "Mar"
    } else if m == 4 {
        "Apr"
    } else if m == 5 {
        "May"
    } else if m == 6 {
        "Jun"
    } else if m == 7 {
        "Jul"
    } else if m == 8 {
        "Aug"
    } else if m == 9 {
        "Sep"
    } else if m == 10 {
        "Oct"
    } else if m == 11 {
        "Nov"
    } else if m == 12 {
        "Dec"
    } else {
        "Non"
    }
}

/// Writes the timestamp text for the given local calendar fields.
pub fn format_modified(y: i32, mo: u32, d: u32, h: u32, mi: u32, older: bool) -> (r: String)
    ensures
        r@ == spec_modified_str(y as int, mo as int, d as int, h as int, mi as int, older),
{
    let mut out = String::from_str(month_abbr(mo));
    out.append(" ");
    let day = u64_to_string(d as u64).pad_start(2, ' ');
    out.append(day.as_str());
    out.append(" ");
    if older {
        let year = i64_to_string(y as i64);
        out.append(year.as_str());
        proof {
            assert(out@ =~= spec_modified_str(y as int, mo as int, d as int, h as int,
                mi as int, older));
        }
    } else {
        let hh = u64_to_string(h as u64).pad_start(2, '0');
        let mm = u64_to_string(mi as u64).pad_start(2, '0');
        out.append(hh.as_str());
        out.append(":");
        out.append(mm.as_str());
        proof {
            assert(out@ =~= spec_modified_str(y as int, mo as int, d as int, h as int,
                mi as int, older));
        }
    }
    out
}

// ---------------------------------------------------------------------------
// FilesEntry
// ---------------------------------------------------------------------------

/// One filesystem object's decoded snapshot: its kind and path, the 16 mode
/// bits, the byte size, the formatted modification timestamp, and the
/// derived fields read from the same snapshot.
pub struct FilesEntry {
    pub file_type: FilesType,
    pub perms: u16,
    pub size: u64,
    pub modified: String,
    pub links: u64,
    pub user: Option<String>,
    pub group: Option<String>,
}

/// What a well-formed timestamp text for `mtime`, judged against `now`,
/// looks like: the fixed epoch text when the instant is unknown, otherwise
/// the rendering of some valid local calendar fields under the recency rule.
pub open spec fn spec_modified_ok(s: Seq<char>, mtime: Option<(i64, u32)>, now_s: int,
    now_n: int) -> bool {
    match mtime {
        None => s == "Jan 01 1970"@,
        Some(t) => exists|y: int, mo: int, d: int, h: int, mi: int|
            1 <= mo <= 12 && 1 <= d <= 31 && 0 <= h < 24 && 0 <= mi < 60 && s
                == #[trigger] spec_modified_str(y, mo, d, h, mi, spec_is_old(t.0 as int,
                t.1 as int, now_s, now_n)),
    }
}

impl FilesEntry {
    /// Builds the entry for a regular file.
    pub fn new_file(path: &String, meta: MetaInfo, now_s: i64, now_n: u32) -> (r: Self)
        requires
            now_s >= i64::MIN + 15552000,
        ensures
            r.file_type matches FilesType::File(p) && p@ == path@,
            r.perms == meta.perms && r.size == meta.size && r.links == meta.links,
            r.user == meta.user && r.group == meta.group,
            spec_modified_ok(r.modified@, meta.mtime, now_s as int, now_n as int),
    {
        Self::new(FilesType::File(path.clone()), meta, now_s, now_n)
    }

    /// Builds the entry for a directory.
    pub fn new_dir(path: &String, meta: MetaInfo, now_s: i64, now_n: u32) -> (r: Self)
        requires
            now_s >= i64::MIN + 15552000,
        ensures
            r.file_type matches FilesType::Dir(p) && p@ == path@,
            r.perms == meta.perms && r.size == meta.size && r.links == meta.links,
            r.user == meta.user && r.group == meta.group,
            spec_modified_ok(r.modified@, meta.mtime, now_s as int, now_n as int),
    {
        Self::new(FilesType::Dir(path.clone()), meta, now_s, now_n)
    }

    /// Builds the entry for a symlink from its own path and raw target.
    pub fn new_sym(sym: &String, path: &String, meta: MetaInfo, now_s: i64, now_n: u32)
        -> (r: Self)
        requires
            now_s >= i64::MIN + 15552000,
        ensures
            r.file_type matches FilesType::Sym(s, t) && s@ == sym@ && t@ == path@,
            r.perms == meta.perms && r.size == meta.size && r.links == meta.links,
            r.user == meta.user && r.group == meta.group,
            spec_modified_ok(r.modified@, meta.mtime, now_s as int, now_n as int),
    {
        Self::new(FilesType::Sym(sym.clone(), path.clone()), meta, now_s, now_n)
    }

    /// Builds an entry from a kind whose paths the caller already resolved
    /// and one metadata snapshot, formatting the timestamp against `now`.
    fn new(file_type: FilesType, meta: MetaInfo, now_s: i64, now_n: u32) -> (r: Self)
        requires
            now_s >= i64::MIN + 15552000,
        ensures
            r.file_type == file_type,
            r.perms == meta.perms && r.size == meta.size && r.links == meta.links,
            r.user == meta.user && r.group == meta.group,
            spec_modified_ok(r.modified@, meta.mtime, now_s as int, now_n as int),
    {
        let modified: String = match meta.mtime {
            None => String::from_str("Jan 01 1970"),
            Some(t) => {
                let parts = local_time_parts(t.0, t.1);
                let older = t.0 < now_s - 15552000 || (t.0 == now_s - 15552000 && t.1 <= now_n);
                let text = format_modified(parts.0, parts.1, parts.2, parts.3, parts.4, older);
                proof {
                    assert(older == spec_is_old(t.0 as int, t.1 as int, now_s as int,
                        now_n as int));
                    assert(text@ == spec_modified_str(parts.0 as int, parts.1 as int,
                        parts.2 as int, parts.3 as int, parts.4 as int, spec_is_old(t.0 as int,
                        t.1 as int, now_s as int, now_n as int)));
                }
                text
            },
        };
        FilesEntry {
            file_type,
            perms: meta.perms,
            size: meta.size,
            modified,
            links: meta.links,
            user: meta.user,
            group: meta.group,
        }
    }

    /// The entry's own path.
    pub fn path(&self) -> (r: &String)
        ensures
            r@ == spec_type_path(&self.file_type),
    {
        self.file_type.path()
    }

    /// The entry's file name, when its path has one.
    pub fn name(&self) -> (r: Option<String>)
        ensures
            match r {
                Some(n) => spec_name_of(spec_type_path(&self.file_type)) == Some(n@)
                    && n@.len() > 0,
                None => spec_name_of(spec_type_path(&self.file_type)) is None,
            },
    {
        let p = self.path();
        let cs = str_to_chars(p.as_str());
        match rfind_char(&cs, '/') {
            None => {
                if cs.len() == 0 {
                    None
                } else {
                    Some(p.clone())
                }
            },
            Some(i) => {
                if i < cs.len() - 1 {
                    let mut out: Vec<char> = Vec::new();
                    let mut k: usize = i + 1;
                    while k < cs.len()
                        invariant
                            i + 1 <= k <= cs@.len(),
                            out@ == cs@.subrange(i + 1, k as int),
                        decreases cs@.len() - k,
                    {
                        out.push(cs[k]);
                        k += 1;
                        proof {
                            assert(out@ =~= cs@.subrange(i + 1, k as int));
                        }
                    }
                    proof {
                        assert(out@ =~= cs@.skip(i + 1));
                    }
                    Some(chars_to_string(&out))
                } else {
                    None
                }
            },
        }
    }

    /// The path of the entry's parent directory, when it has one.
    pub fn up_dir(&self) -> (r: Option<String>)
        ensures
            match r {
                Some(n) => spec_up_of(spec_type_path(&self.file_type)) == Some(n@),
                None => spec_up_of(spec_type_path(&self.file_type)) is None,
            },
    {
        let p = self.path();
        let cs = str_to_chars(p.as_str());
        match rfind_char(&cs, '/') {
            None => None,
            Some(i) => {
                if i == 0 {
                    if cs.len() == 1 {
                        None
                    } else {
                        let mut out: Vec<char> = Vec::new();
                        out.push('/');
                        proof {
                            assert(out@ =~= seq!['/']);
                        }
                        Some(chars_to_string(&out))
                    }
                } else {
                    let mut out: Vec<char> = Vec::new();
                    let mut k: usize = 0;
                    while k < i
                        invariant
                            k <= i < cs@.len(),
                            out@ == cs@.take(k as int),
                        decreases i - k,
                    {
                        out.push(cs[k]);
                        k += 1;
                        proof {
                            assert(out@ =~= cs@.take(k as int));
                        }
                    }
                    Some(chars_to_string(&out))
                }
            },
        }
    }

    /// The owner name read at construction, or an error where the lookup
    /// had failed.
    pub fn get_user_str(&self) -> (r: Result<String, String>)
        ensures
            self.user matches Some(u) ==> r matches Ok(v) && v == u,
            self.user is None ==> r is Err,
    {
        match &self.user {
            Some(u) => Ok(u.clone()),
            None => Err(String::from_str("unknown user")),
        }
    }

    /// The group name read at construction, or an error where the lookup
    /// had failed.
    pub fn get_group_str(&self) -> (r: Result<String, String>)
        ensures
            self.group matches Some(g) ==> r matches Ok(v) && v == g,
            self.group is None ==> r is Err,
    {
        match &self.group {
            Some(g) => Ok(g.clone()),
            None => Err(String::from_str("unknown group")),
        }
    }

    /// The hard-link count read at construction.
    pub fn get_link_count(&self) -> (r: u64)
        ensures
            r == self.links,
    {
        self.links
    }

    /// Reads the read, write and execute bits of one permission group:
    /// group 0 is others, 1 the group, 2 the owner, 3 the special bits.
    fn split_mode(&self, section: u16) -> (r: (bool, bool, bool))
        requires
            section <= 3,
        ensures
            r == spec_split_mode(self.perms, section),
    {
        let mode = self.perms >> (section * 3);
        ((mode & 4) != 0, (mode & 2) != 0, (mode & 1) != 0)
    }

    fn pick_mode(bits: (bool, bool, bool), xc0: char, xc1: char) -> (r: String)
        ensures
            r@ == spec_pick_mode(bits.0, bits.1, bits.2, xc0, xc1),
    {
        let mut v: Vec<char> = Vec::new();
        v.push(if bits.0 { 'r' } else { '-' });
        v.push(if bits.1 { 'w' } else { '-' });
        v.push(if bits.2 { xc1 } else { xc0 });
        proof {
            assert(v@ =~= spec_pick_mode(bits.0, bits.1, bits.2, xc0, xc1));
        }
        chars_to_string(&v)
    }

    /// The ten-character mode column: the kind, then three `rwx` groups,
    /// with the execute slots showing the setuid, setgid and sticky bits.
    /// It is always ten characters long and opens with `d`, `l` or `-`
    /// exactly as the entry is a directory, a symlink or a regular file.
    pub fn get_mode_str(&self) -> (r: String)
        ensures
            r@ == spec_mode_str(&self.file_type, self.perms),
            r@.len() == 10,
            r@[0] == 'd' <==> self.file_type is Dir,
            r@[0] == 'l' <==> self.file_type is Sym,
            r@[0] == '-' <==> self.file_type is File,
    {
        let special = self.split_mode(3);
        let owner = self.split_mode(2);
        let group = self.split_mode(1);
        let other = self.split_mode(0);

        let mut out = String::from_str(match self.file_type {
            FilesType::File(_) => "-",
            FilesType::Dir(_) => "d",
            FilesType::Sym(_, _) => "l",
        });
        let o = Self::pick_mode(owner, if special.0 { 'S' } else { '-' },
            if special.0 { 's' } else { 'x' });
        let g = Self::pick_mode(group, if special.1 { 'S' } else { '-' },
            if special.1 { 's' } else { 'x' });
        let t = Self::pick_mode(other, if special.2 { 'T' } else { '-' },
            if special.2 { 't' } else { 'x' });
        out.append(o.as_str());
        out.append(g.as_str());
        out.append(t.as_str());
        proof {
            reveal_strlit("-");
            reveal_strlit("d");
            reveal_strlit("l");
            assert(out@ =~= spec_mode_str(&self.file_type, self.perms));
        }
        out
    }
}

/// The bits of one permission group of the 16-bit mode field.
pub open spec fn spec_split_mode(perms: u16, section: u16) -> (bool, bool, bool) {
    let mode = perms >> ((section * 3) as u16);
    ((mode & 4) != 0, (mode & 2) != 0, (mode & 1) != 0)
}

/// One `rwx` group, with `xc0` in the execute slot when the execute bit is
/// off and `xc1` when it is on.
pub open spec fn spec_pick_mode(r: bool, w: bool, x: bool, xc0: char, xc1: char) -> Seq<char> {
    seq![
        if r { 'r' } else { '-' },
        if w { 'w' } else { '-' },
        if x { xc1 } else { xc0 },
    ]
}

/// The character that opens the mode column.
pub open spec fn spec_kind_char(t: &FilesType) -> char {
    match t {
        FilesType::File(_) => '-',
        FilesType::Dir(_) => 'd',
        FilesType::Sym(_, _) => 'l',
    }
}

/// The full ten-character mode column.
pub open spec fn spec_mode_str(t: &FilesType, perms: u16) -> Seq<char> {
    let special = spec_split_mode(perms, 3);
    let owner = spec_split_mode(perms, 2);
    let group = spec_split_mode(perms, 1);
    let other = spec_split_mode(perms, 0);
    seq![spec_kind_char(t)] + spec_pick_mode(owner.0, owner.1, owner.2,
        if special.0 { 'S' } else { '-' }, if special.0 { 's' } else { 'x' })
        + spec_pick_mode(group.0, group.1, group.2, if special.1 { 'S' } else { '-' },
        if special.1 { 's' } else { 'x' }) + spec_pick_mode(other.0, other.1, other.2,
        if special.2 { 'T' } else { '-' }, if special.2 { 't' } else { 'x' })
}

// ---------------------------------------------------------------------------
// Sort keys
// ---------------------------------------------------------------------------

/// What `str::to_lowercase` returns for `s`, written as UTF-8 bytes.
pub uninterp spec fn lower_bytes_of(s: Seq<char>) -> Seq<u8>;

/// Relies on str::to_lowercase: the Unicode lowercase mapping, a function of
/// the characters alone; `into_bytes` yields its UTF-8 writing.
#[verifier::external_body]
fn lower_key_bytes(s: &str) -> (r: Vec<u8>)
    ensures
        r@ == lower_bytes_of(s@),
{
    s.to_lowercase().into_bytes()
}

/// The byte sequence with every `.` (byte 46) taken out.
pub open spec fn spec_strip_dots(s: Seq<u8>) -> Seq<u8> {
    s.filter(|b: u8| b != 46)
}

fn strip_dots(v: &Vec<u8>) -> (r: Vec<u8>)
    ensures
        r@ == spec_strip_dots(v@),
{
    let mut out: Vec<u8> = Vec::new();
    let mut i: usize = 0;
    proof {
        reveal(Seq::filter);
        assert(spec_strip_dots(v@.take(0)) =~= Seq::empty());
    }
    while i < v.len()
        invariant
            i <= v.len(),
            out@ == spec_strip_dots(v@.take(i as int)),
        decreases v.len() - i,
    {
        let x = v[i];
        proof {
            reveal(Seq::filter);
            assert(v@.take(i + 1).drop_last() =~= v@.take(i as int));
            assert(v@.take(i + 1).last() == v@[i as int]);
        }
        if x != 46 {
            out.push(x);
        }
        i += 1;
    }
    proof {
        assert(v@.take(v@.len() as int) =~= v@);
    }
    out
}

/// The name an entry is sorted under: its file name, or `.` without one.
pub open spec fn spec_name_or_dot(e: FilesEntry) -> Seq<char> {
    match spec_name_of(spec_type_path(&e.file_type)) {
        Some(n) => n,
        None => "."@,
    }
}

/// The sort key: the lowercased name with every dot removed, as bytes.
pub open spec fn spec_sort_key(e: FilesEntry) -> Seq<u8> {
    spec_strip_dots(lower_bytes_of(spec_name_or_dot(e)))
}

/// Computes an entry's sort key.
fn sort_key(e: &FilesEntry) -> (k: Vec<u8>)
    ensures
        k@ == spec_sort_key(*e),
{
    let lowered = match e.name() {
        Some(n) => lower_key_bytes(n.as_str()),
        None => lower_key_bytes("."),
    };
    strip_dots(&lowered)
}

/// Compares two entries by their sort keys.
fn le_entry(a: &FilesEntry, b: &FilesEntry) -> (r: bool)
    ensures
        r == lex_le(spec_sort_key(*a), spec_sort_key(*b)),
{
    let ka = sort_key(a);
    let kb = sort_key(b);
    bytes_le(&ka, &kb)
}

/// Whether the entries stand in sort-key order.
pub open spec fn spec_sorted_entries(s: Seq<FilesEntry>) -> bool {
    forall|i: int, j: int|
        0 <= i < j < s.len() ==> lex_le(spec_sort_key(s[i]), spec_sort_key(s[j]))
}

/// Where a stable sort puts `e` into the already sorted `s`: after every
/// element whose key is not greater, so that equal keys keep their order.
pub open spec fn spec_insert_sorted(s: Seq<FilesEntry>, e: FilesEntry) -> Seq<FilesEntry>
    decreases s.len(),
{
    if s.len() == 0 {
        seq![e]
    } else if lex_le(spec_sort_key(s.last()), spec_sort_key(e)) {
        s.push(e)
    } else {
        spec_insert_sorted(s.drop_last(), e).push(s.last())
    }
}

/// The stable sort of the members by their keys: each member in read order
/// inserted after everything with a key not greater than its own.
pub open spec fn spec_sort_entries(s: Seq<FilesEntry>) -> Seq<FilesEntry>
    decreases s.len(),
{
    if s.len() == 0 {
        s
    } else {
        spec_insert_sorted(spec_sort_entries(s.drop_last()), s.last())
    }
}

/// In a sorted run, inserting lands exactly at the first position whose key
/// is greater.
proof fn lemma_insert_sorted_at(p: Seq<FilesEntry>, e: FilesEntry, j: int)
    requires
        spec_sorted_entries(p),
        0 <= j <= p.len(),
        forall|k: int| 0 <= k < j ==> lex_le(spec_sort_key(#[trigger] p[k]),
            spec_sort_key(e)),
        j < p.len() ==> !lex_le(spec_sort_key(p[j]), spec_sort_key(e)),
    ensures
        spec_insert_sorted(p, e) == p.take(j).push(e) + p.skip(j),
    decreases p.len(),
{
    if p.len() == 0 {
        assert(p.take(0).push(e) + p.skip(0) =~= seq![e]);
    } else if lex_le(spec_sort_key(p.last()), spec_sort_key(e)) {
        if j < p.len() {
            if j < p.len() - 1 {
                assert(lex_le(spec_sort_key(p[j]), spec_sort_key(p[p.len() - 1])));
                lemma_lex_le_trans(spec_sort_key(p[j]), spec_sort_key(p[p.len() - 1]),
                    spec_sort_key(e));
            }
            assert(false);
        }
        assert(p.take(j).push(e) + p.skip(j) =~= p.push(e));
    } else {
        if j == p.len() {
            assert(lex_le(spec_sort_key(p[p.len() - 1]), spec_sort_key(e)));
            assert(false);
        }
        let pl = p.drop_last();
        assert forall|a: int, b: int| 0 <= a < b < pl.len() implies lex_le(spec_sort_key(
            pl[a]), spec_sort_key(pl[b])) by {
            assert(pl[a] == p[a] && pl[b] == p[b]);
        }
        assert forall|k: int| 0 <= k < j implies lex_le(spec_sort_key(#[trigger] pl[k]),
            spec_sort_key(e)) by {
            assert(pl[k] == p[k]);
        }
        assert(j < pl.len() ==> pl[j] == p[j]);
        lemma_insert_sorted_at(pl, e, j);
        assert(spec_insert_sorted(pl, e).push(p.last()) =~= p.take(j).push(e) + p.skip(j));
    }
}

/// Taking an element out and putting it back elsewhere keeps the contents.
proof fn lemma_remove_insert_multiset(s: Seq<FilesEntry>, i: int, j: int)
    requires
        0 <= j <= i < s.len(),
    ensures
        s.remove(i).insert(j, s[i]).to_multiset() == s.to_multiset(),
{
    broadcast use vstd::seq_lib::group_to_multiset_ensures;

    let rs = s.remove(i);
    assert(rs.insert(j, s[i]).to_multiset() == rs.to_multiset().insert(s[i]));
    assert(rs.to_multiset() == s.to_multiset().remove(s[i]));
    assert(s.contains(s[i]));
    assert(s.to_multiset().count(s[i]) > 0);
    assert(s.to_multiset().remove(s[i]).insert(s[i]) =~= s.to_multiset());
}

// ---------------------------------------------------------------------------
// Block-size resolution
// ---------------------------------------------------------------------------

/// The value an override variable contributes: its text parsed as an
/// integer, nothing when it is absent or does not parse.
pub open spec fn spec_env_size(v: Option<String>) -> Option<int> {
    match v {
        None => None,
        Some(s) => if spec_is_i64(s@) {
            Some(spec_int_val(s@))
        } else {
            None
        },
    }
}

/// The block-size unit: the first of the four overrides that parses,
/// 1024 without one.
pub open spec fn spec_block_size(v1: Option<String>, v2: Option<String>, v3: Option<String>,
    v4: Option<String>) -> int {
    match spec_env_size(v1) {
        Some(x) => x,
        None => match spec_env_size(v2) {
            Some(x) => x,
            None => match spec_env_size(v3) {
                Some(x) => x,
                None => match spec_env_size(v4) {
                    Some(x) => x,
                    None => 1024,
                },
            },
        },
    }
}

/// Resolves the block-size unit from the four override variables' values,
/// in priority order, falling back to 1024.
pub fn get_block_size(v1: &Option<String>, v2: &Option<String>, v3: &Option<String>,
    v4: &Option<String>) -> (r: i64)
    ensures
        r as int == spec_block_size(*v1, *v2, *v3, *v4),
{
    if let Some(s) = v1 {
        if let Some(p) = parse_i64(s.as_str()) {
            return p;
        }
    }
    if let Some(s) = v2 {
        if let Some(p) = parse_i64(s.as_str()) {
            return p;
        }
    }
    if let Some(s) = v3 {
        if let Some(p) = parse_i64(s.as_str()) {
            return p;
        }
    }
    if let Some(s) = v4 {
        if let Some(p) = parse_i64(s.as_str()) {
            return p;
        }
    }
    1024
}

// ---------------------------------------------------------------------------
// FilesList
// ---------------------------------------------------------------------------

/// One directory member as the caller read it: the built entry and its
/// disk usage in 512-byte units.
pub struct ChildInfo {
    pub entry: FilesEntry,
    pub blocks: i64,
}

/// Whether an entry stays in the listing: always with `all`, otherwise only
/// when its name does not open with a dot.
pub open spec fn spec_included(e: FilesEntry, all: bool) -> bool {
    all || match spec_name_of(spec_type_path(&e.file_type)) {
        None => true,
        Some(n) => n[0] != '.',
    }
}

/// The entries of the members that stay in the listing, in read order.
pub open spec fn spec_included_entries(cs: Seq<ChildInfo>, all: bool) -> Seq<FilesEntry> {
    cs.map_values(|c: ChildInfo| c.entry).filter(|e: FilesEntry| spec_included(e, all))
}

/// The 512-byte blocks of the members that stay in the listing.
pub open spec fn spec_blocks_sum(cs: Seq<ChildInfo>, all: bool) -> int
    decreases cs.len(),
{
    if cs.len() == 0 {
        0
    } else {
        spec_blocks_sum(cs.drop_last(), all) + (if spec_included(cs.last().entry, all) {
            cs.last().blocks as int
        } else {
            0
        })
    }
}

/// With non-negative member counts, the filtered sum stays between zero and
/// the unfiltered sum.
proof fn lemma_blocks_sum_le_all(cs: Seq<ChildInfo>, all: bool)
    requires
        forall|k: int| 0 <= k < cs.len() ==> #[trigger] cs[k].blocks >= 0,
    ensures
        0 <= spec_blocks_sum(cs, all) <= spec_blocks_sum(cs, true),
    decreases cs.len(),
{
    if cs.len() > 0 {
        lemma_blocks_sum_le_all(cs.drop_last(), all);
    }
}

/// With non-negative member counts, a prefix sums to no more than the whole.
proof fn lemma_blocks_sum_prefix(cs: Seq<ChildInfo>, all: bool, i: int)
    requires
        0 <= i <= cs.len(),
        forall|k: int| 0 <= k < cs.len() ==> #[trigger] cs[k].blocks >= 0,
    ensures
        spec_blocks_sum(cs.take(i), all) <= spec_blocks_sum(cs, all),
    decreases cs.len(),
{
    if i == cs.len() {
        assert(cs.take(i) =~= cs);
    } else if cs.len() > 0 {
        assert(cs.drop_last().take(i) =~= cs.take(i));
        lemma_blocks_sum_prefix(cs.drop_last(), all, i);
        lemma_blocks_sum_le_all(cs.drop_last(), all);
    }
}

/// The reported total: the included blocks scaled from 512-byte units to the
/// block-size unit, with the original's truncating division.
pub open spec fn spec_block_total(base: int, sum: int, bs: int) -> int {
    let num = (base + sum) * 512;
    if bs > 0 {
        num / bs
    } else {
        -(num / -bs)
    }
}

/// The ordered result of enumerating one root: its members, the entry of the
/// root itself, the entry of its parent when that could be read, and the
/// block total in the caller-selected unit.
pub struct FilesList {
    pub entries: Vec<FilesEntry>,
    pub dir: FilesEntry,
    pub up_dir: Option<FilesEntry>,
    pub blocks: i64,
}

impl FilesList {
    /// Assembles a listing from the members the caller read: members whose
    /// names open with a dot leave unless `all_files`, the block total is
    /// the included members' blocks (plus the root's and its parent's own
    /// with `all_files`) scaled to the block-size unit, and the members are
    /// sorted by the lowercased, dot-stripped name.
    pub fn new(dir: FilesEntry, up_dir: Option<FilesEntry>, root_blocks: i64,
        parent_blocks: i64, children: Vec<ChildInfo>, block_size: i64, opts: &Opts)
        -> (r: FilesList)
        requires
            block_size != 0,
            root_blocks >= 0,
            parent_blocks >= 0,
            forall|k: int| 0 <= k < children@.len() ==> #[trigger] children@[k].blocks >= 0,
            (root_blocks + parent_blocks + spec_blocks_sum(children@, true)) * 512 <= i64::MAX,
        ensures
            r.dir == dir,
            r.up_dir == up_dir,
            r.entries@.to_multiset() == spec_included_entries(children@,
                opts.all_files).to_multiset(),
            spec_sorted_entries(r.entries@),
            r.entries@ == spec_sort_entries(spec_included_entries(children@, opts.all_files)),
            r.blocks as int == spec_block_total(
                if opts.all_files { root_blocks + parent_blocks } else { 0 },
                spec_blocks_sum(children@, opts.all_files), block_size as int),
    {
        let all = opts.all_files;
        let ghost cs = children@;
        proof {
            lemma_blocks_sum_le_all(cs, all);
            lemma_blocks_sum_le_all(cs, true);
        }
        let base: i64 = if all {
            root_blocks + parent_blocks
        } else {
            0
        };
        let mut blocks: i64 = base;
        let mut entries: Vec<FilesEntry> = Vec::new();
        let total = children.len();
        let ghost n = total as int;
        let mut rest = children;
        let mut i: usize = 0;
        proof {
            assert(cs.skip(0) =~= cs);
            assert(spec_included_entries(cs.take(0), all) =~= Seq::empty());
        }
        while rest.len() > 0
            invariant
                0 <= i as int <= n,
                n == cs.len(),
                n == total as int,
                rest@ == cs.skip(i as int),
                forall|k: int| 0 <= k < cs.len() ==> #[trigger] cs[k].blocks >= 0,
                base >= 0,
                (base + spec_blocks_sum(cs, true)) * 512 <= i64::MAX,
                base as int == (if all { root_blocks + parent_blocks } else { 0 }),
                blocks as int == base + spec_blocks_sum(cs.take(i as int), all),
                entries@ == spec_included_entries(cs.take(i as int), all),
            decreases rest@.len(),
        {
            let c = rest.remove(0);
            proof {
                assert(cs.skip(i as int)[0] == cs[i as int]);
                assert(cs.skip(i as int).remove(0) =~= cs.skip(i as int + 1));
                assert(cs.take(i as int + 1).drop_last() =~= cs.take(i as int));
                assert(cs.take(i as int + 1).last() == cs[i as int]);
                lemma_blocks_sum_prefix(cs, all, i as int + 1);
                lemma_blocks_sum_le_all(cs, all);
                reveal(Seq::filter);
                assert(cs.take(i as int + 1).map_values(|c: ChildInfo| c.entry).drop_last()
                    =~= cs.take(i as int).map_values(|c: ChildInfo| c.entry));
            }
            proof {
                assert((i as int) < n);
                assert((base + spec_blocks_sum(cs.take(i as int + 1), all)) * 512
                    <= i64::MAX);
            }
            if Self::included(&c.entry, all) {
                blocks = blocks + c.blocks;
                entries.push(c.entry);
            }
            i = i + 1;
        }
        proof {
            assert(cs.take(n) =~= cs);
        }
        let num: i64 = blocks * 512;
        let q: i64 = if block_size > 0 {
            let qn: u64 = (num as u64) / (block_size as u64);
            qn as i64
        } else {
            let mag: u64 = if block_size == i64::MIN {
                9223372036854775808u64
            } else {
                (-block_size) as u64
            };
            let qn: u64 = (num as u64) / mag;
            -(qn as i64)
        };
        let mut result = FilesList { entries, dir, up_dir, blocks: q };
        result.sort();
        result
    }

    /// Whether an entry stays in the listing under the hidden-name rule.
    fn included(e: &FilesEntry, all: bool) -> (r: bool)
        ensures
            r == spec_included(*e, all),
    {
        if all {
            return true;
        }
        match e.name() {
            None => true,
            Some(n) => {
                let c = n.as_str().get_char(0);
                c != '.'
            },
        }
    }

    /// Sorts the members by the lowercased, dot-stripped name: the result is
    /// exactly the stable insertion sort of the members, so the contents are
    /// kept, members with equal keys keep their read order, and a listing
    /// that already stands in that order is unchanged.
    pub fn sort(&mut self)
        ensures
            final(self).dir == old(self).dir,
            final(self).up_dir == old(self).up_dir,
            final(self).blocks == old(self).blocks,
            final(self).entries@.to_multiset() == old(self).entries@.to_multiset(),
            spec_sorted_entries(final(self).entries@),
            final(self).entries@ == spec_sort_entries(old(self).entries@),
            spec_sorted_entries(old(self).entries@) ==> final(self).entries@
                == old(self).entries@,
    {
        let n = self.entries.len();
        if n < 2 {
            proof {
                let s0 = self.entries@;
                if s0.len() == 1 {
                    assert(s0.drop_last() =~= Seq::<FilesEntry>::empty());
                    assert(spec_insert_sorted(spec_sort_entries(s0.drop_last()), s0.last())
                        =~= seq![s0.last()]);
                    assert(spec_sort_entries(s0) =~= s0);
                }
            }
            return;
        }
        let mut i: usize = 1;
        proof {
            let o = old(self).entries@;
            assert(o.take(1).drop_last() =~= o.take(0));
            assert(spec_insert_sorted(spec_sort_entries(o.take(1).drop_last()),
                o.take(1).last()) =~= seq![o[0]]);
            assert(spec_sort_entries(o.take(1)) =~= self.entries@.take(1));
            assert(self.entries@.skip(1) =~= o.skip(1));
        }
        while i < n
            invariant
                1 <= i <= n,
                n == self.entries@.len(),
                self.dir == old(self).dir,
                self.up_dir == old(self).up_dir,
                self.blocks == old(self).blocks,
                self.entries@.to_multiset() == old(self).entries@.to_multiset(),
                spec_sorted_entries(self.entries@.take(i as int)),
                self.entries@.take(i as int) == spec_sort_entries(
                    old(self).entries@.take(i as int)),
                self.entries@.skip(i as int) == old(self).entries@.skip(i as int),
                spec_sorted_entries(old(self).entries@) ==> self.entries@
                    == old(self).entries@,
            decreases n - i,
        {
            proof {
                broadcast use vstd::seq_lib::group_to_multiset_ensures;

                let o = old(self).entries@;
                let s = self.entries@;
                assert(s.len() == s.to_multiset().len());
                assert(o.len() == o.to_multiset().len());
                assert(o.len() == n);
                assert(s.skip(i as int)[0] == s[i as int]);
                assert(o.skip(i as int)[0] == o[i as int]);
                assert(s[i as int] == o[i as int]);
                assert(o.take(i as int + 1).drop_last() =~= o.take(i as int));
                assert(o.take(i as int + 1).last() == o[i as int]);
            }
            let ghost s = self.entries@;
            let mut j: usize = 0;
            while j < i && Self::le_at(&self.entries, j, i)
                invariant
                    0 <= j <= i < n,
                    n == self.entries@.len(),
                    self.entries@ == s,
                    forall|k: int|
                        0 <= k < j ==> lex_le(spec_sort_key(s[k]), spec_sort_key(
                            s[i as int])),
                decreases i - j,
            {
                j += 1;
            }
            if j < i {
                proof {
                    lemma_lex_le_total(spec_sort_key(s[j as int]), spec_sort_key(s[i as int]));
                    if spec_sorted_entries(old(self).entries@) {
                        assert(lex_le(spec_sort_key(s[j as int]), spec_sort_key(s[i as int])));
                    }
                }
                let moved = self.entries.remove(i);
                self.entries.insert(j, moved);
                proof {
                    let ns = self.entries@;
                    lemma_remove_insert_multiset(s, i as int, j as int);
                    assert(ns == s.remove(i as int).insert(j as int, s[i as int]));
                    let ghost t = s.take(i as int);
                    assert forall|p: int, q2: int| 0 <= p < q2 < i as int implies lex_le(
                        spec_sort_key(s[p]), spec_sort_key(s[q2])) by {
                        assert(t[p] == s[p] && t[q2] == s[q2]);
                        assert(lex_le(spec_sort_key(t[p]), spec_sort_key(t[q2])));
                    }
                    assert forall|p: int, q2: int| 0 <= p < q2 < i as int + 1 implies lex_le(
                        spec_sort_key(ns[p]), spec_sort_key(ns[q2])) by {
                        let ki = spec_sort_key(s[i as int]);
                        let kj = spec_sort_key(s[j as int]);
                        if q2 < j as int {
                            assert(ns[p] == s[p] && ns[q2] == s[q2]);
                        } else if q2 == j as int {
                            assert(ns[p] == s[p] && ns[q2] == s[i as int]);
                        } else {
                            assert(ns[q2] == s[q2 - 1]);
                            if p < j as int {
                                assert(ns[p] == s[p]);
                                assert(lex_le(spec_sort_key(s[p]), spec_sort_key(s[q2 - 1])));
                            } else if p == j as int {
                                assert(ns[p] == s[i as int]);
                                if (j as int) < q2 - 1 {
                                    assert(lex_le(kj, spec_sort_key(s[q2 - 1])));
                                    lemma_lex_le_trans(ki, kj, spec_sort_key(s[q2 - 1]));
                                }
                            } else {
                                assert(ns[p] == s[p - 1]);
                            }
                        }
                    }
                    assert(spec_sorted_entries(self.entries@.take(i as int + 1)));
                    let o = old(self).entries@;
                    assert forall|k: int| 0 <= k < j as int implies lex_le(spec_sort_key(
                        #[trigger] t[k]), spec_sort_key(s[i as int])) by {
                        assert(t[k] == s[k]);
                    }
                    assert(t[j as int] == s[j as int]);
                    lemma_insert_sorted_at(t, s[i as int], j as int);
                    assert(ns.take(i as int + 1) =~= t.take(j as int).push(s[i as int])
                        + t.skip(j as int)) by {
                        assert forall|p: int| 0 <= p < i as int + 1 implies ns.take(
                            i as int + 1)[p] == (t.take(j as int).push(s[i as int])
                            + t.skip(j as int))[p] by {
                            if p < j as int {
                                assert(ns[p] == s[p] && t.take(j as int)[p] == t[p]
                                    && t[p] == s[p]);
                            } else if p == j as int {
                                assert(ns[p] == s[i as int]);
                            } else {
                                assert(ns[p] == s[p - 1]);
                                assert(t.skip(j as int)[p - j - 1] == t[p - 1]);
                                assert(t[p - 1] == s[p - 1]);
                            }
                        }
                    }
                    assert(t == spec_sort_entries(o.take(i as int)));
                    assert(spec_sort_entries(o.take(i as int + 1)) == spec_insert_sorted(
                        spec_sort_entries(o.take(i as int)), o[i as int]));
                    assert(ns.take(i as int + 1) == spec_sort_entries(o.take(i as int + 1)));
                    assert(ns.skip(i as int + 1) =~= s.skip(i as int + 1)) by {
                        assert forall|p: int| 0 <= p < ns.skip(i as int + 1).len() implies
                            #[trigger] ns.skip(i as int + 1)[p] == s.skip(i as int + 1)[p] by {
                            let rs = s.remove(i as int);
                            assert(ns[p + i + 1] == rs.skip(j as int)[p + i - j]);
                            assert(rs.skip(j as int)[p + i - j] == rs[p + i]);
                            assert(rs[p + i] == s[p + i + 1]);
                        }
                    }
                    assert(s.skip(i as int + 1) =~= o.skip(i as int + 1)) by {
                        assert forall|p: int| 0 <= p < s.skip(i as int + 1).len() implies
                            #[trigger] s.skip(i as int + 1)[p] == o.skip(i as int + 1)[p] by {
                            assert(s.skip(i as int)[p + 1] == s[p + i + 1]);
                            assert(o.skip(i as int)[p + 1] == o[p + i + 1]);
                        }
                    }
                    assert(ns.skip(i as int + 1) == o.skip(i as int + 1));
                }
            } else {
                proof {
                    let ghost t = s.take(i as int);
                    assert forall|p: int, q2: int| 0 <= p < q2 < i as int + 1 implies lex_le(
                        spec_sort_key(self.entries@[p]), spec_sort_key(
                        self.entries@[q2])) by {
                        if q2 == i as int {
                            assert(lex_le(spec_sort_key(s[p]), spec_sort_key(s[i as int])));
                        } else {
                            assert(t[p] == s[p] && t[q2] == s[q2]);
                            assert(lex_le(spec_sort_key(t[p]), spec_sort_key(t[q2])));
                        }
                    }
                    assert(spec_sorted_entries(self.entries@.take(i as int + 1)));
                    let o = old(self).entries@;
                    assert forall|k: int| 0 <= k < i as int implies lex_le(spec_sort_key(
                        #[trigger] t[k]), spec_sort_key(s[i as int])) by {
                        assert(t[k] == s[k]);
                    }
                    lemma_insert_sorted_at(t, s[i as int], i as int);
                    assert(t.take(i as int) =~= t);
                    assert(t.skip(i as int) =~= Seq::<FilesEntry>::empty());
                    assert(t.push(s[i as int]) + Seq::<FilesEntry>::empty() =~= s.take(
                        i as int + 1));
                    assert(t == spec_sort_entries(o.take(i as int)));
                    assert(spec_sort_entries(o.take(i as int + 1)) == spec_insert_sorted(
                        spec_sort_entries(o.take(i as int)), o[i as int]));
                    assert(s.take(i as int + 1) == spec_sort_entries(o.take(i as int + 1)));
                    assert(s.skip(i as int + 1) =~= o.skip(i as int + 1)) by {
                        assert forall|p: int| 0 <= p < s.skip(i as int + 1).len() implies
                            #[trigger] s.skip(i as int + 1)[p] == o.skip(i as int + 1)[p] by {
                            assert(s.skip(i as int)[p + 1] == s[p + i + 1]);
                            assert(o.skip(i as int)[p + 1] == o[p + i + 1]);
                        }
                    }
                }
            }
            i += 1;
        }
        proof {
            assert(self.entries@.take(n as int) =~= self.entries@);
            assert(old(self).entries@.take(n as int) =~= old(self).entries@);
        }
    }

    /// Compares the members at two positions by their sort keys.
    fn le_at(entries: &Vec<FilesEntry>, a: usize, b: usize) -> (r: bool)
        requires
            a < entries@.len(),
            b < entries@.len(),
        ensures
            r == lex_le(spec_sort_key(entries@[a as int]), spec_sort_key(entries@[b as int])),
    {
        le_entry(&entries[a], &entries[b])
    }
}

} // verus!
