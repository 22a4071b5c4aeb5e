//! The migration entity: an immutable record identified by a timestamp and a
//! name, carrying optional up/down SQL payloads and a content hash of each.
//!
//! The canonical string identity of a migration is its key,
//! `YYYY-MM-DD-HHMMSS_name`; the key order is the pair (timestamp, name) with
//! the name as tiebreak, which coincides with the lexicographic order of the
//! rendered keys because the timestamp part is fixed-width and zero-padded.

use vstd::prelude::*;
use vstd::string::StrSliceExecFns;
use vstd::string::StringExecFns;
use vstd::string::StringSliceAdditionalSpecFns;

use crate::errors::Error;
use chrono::Datelike;
use chrono::Timelike;

verus! {

/// An instant at second resolution, in UTC, as its civil components.
#[derive(Clone, Copy, Debug, PartialEq, Eq, Structural)]
pub struct Stamp {
    pub year: u32,
    pub month: u32,
    pub day: u32,
    pub hour: u32,
    pub minute: u32,
    pub second: u32,
}

impl Stamp {
    /// The components fit the `YYYY-MM-DD-HHMMSS` rendering.
    pub open spec fn valid(self) -> bool {
        self.year <= 9999 && 1 <= self.month <= 12 && 1 <= self.day <= 31 && self.hour <= 23
            && self.minute <= 59 && self.second <= 59
    }

    /// Lexicographic order on (year, month, day, hour, minute, second).
    pub open spec fn spec_lt(self, o: Stamp) -> bool {
        self.year < o.year || (self.year == o.year && (self.month < o.month || (self.month
            == o.month && (self.day < o.day || (self.day == o.day && (self.hour < o.hour || (
        self.hour == o.hour && (self.minute < o.minute || (self.minute == o.minute
            && self.second < o.second)))))))))
    }

    pub fn lt(&self, o: &Stamp) -> (r: bool)
        ensures
            r == self.spec_lt(*o),
    {
        if self.year != o.year {
            self.year < o.year
        } else if self.month != o.month {
            self.month < o.month
        } else if self.day != o.day {
            self.day < o.day
        } else if self.hour != o.hour {
            self.hour < o.hour
        } else if self.minute != o.minute {
            self.minute < o.minute
        } else {
            self.second < o.second
        }
    }

    /// 1970-01-01 00:00:00Z, the timestamp of the bootstrap migration.
    pub fn epoch() -> (r: Stamp)
        ensures
            r == spec_epoch(),
    {
        Stamp { year: 1970, month: 1, day: 1, hour: 0, minute: 0, second: 0 }
    }
}

pub open spec fn spec_epoch() -> Stamp {
    Stamp { year: 1970, month: 1, day: 1, hour: 0, minute: 0, second: 0 }
}

/// Lexicographic order on character sequences; a proper prefix sorts first.
pub open spec fn lex_lt(a: Seq<char>, b: Seq<char>) -> bool
    decreases a.len(),
{
    if b.len() == 0 {
        false
    } else if a.len() == 0 {
        true
    } else if a[0] != b[0] {
        a[0] < b[0]
    } else {
        lex_lt(a.drop_first(), b.drop_first())
    }
}

/// Exactly one of `lex_lt(a, b)`, `lex_lt(b, a)`, `a == b` holds.
pub proof fn lemma_lex_trichotomy(a: Seq<char>, b: Seq<char>)
    ensures
        lex_lt(a, b) || lex_lt(b, a) || a == b,
        !(lex_lt(a, b) && lex_lt(b, a)),
        lex_lt(a, b) ==> a != b,
    decreases a.len() + b.len(),
{
    if a.len() == 0 && b.len() == 0 {
        assert(a =~= b);
    } else if a.len() != 0 && b.len() != 0 {
        if a[0] == b[0] {
            lemma_lex_trichotomy(a.drop_first(), b.drop_first());
            if !lex_lt(a, b) && !lex_lt(b, a) {
                assert(a.drop_first() =~= b.drop_first());
                assert forall|i: int| 0 <= i < a.len() implies a[i] == b[i] by {
                    if i > 0 {
                        assert(a[i] == a.drop_first()[i - 1]);
                        assert(b[i] == b.drop_first()[i - 1]);
                    }
                }
                assert(a =~= b);
            }
            if lex_lt(a, b) {
                assert(a.drop_first() != b.drop_first());
                assert(a != b) by {
                    if a == b {
                        assert(a.drop_first() =~= b.drop_first());
                    }
                }
            }
        } else {
            assert(a[0] != b[0] ==> a != b);
        }
    }
}

pub proof fn lemma_lex_lt_trans(a: Seq<char>, b: Seq<char>, c: Seq<char>)
    requires
        lex_lt(a, b),
        lex_lt(b, c),
    ensures
        lex_lt(a, c),
    decreases a.len() + b.len() + c.len(),
{
    if b.len() == 0 {
        // lex_lt(a, b) is false; nothing to do
    } else if c.len() == 0 {
        // lex_lt(b, c) is false
    } else if a.len() == 0 {
        // lex_lt(a, c) holds since c is non-empty
    } else {
        if a[0] == b[0] && b[0] == c[0] {
            lemma_lex_lt_trans(a.drop_first(), b.drop_first(), c.drop_first());
        }
    }
}

// ---------------------------------------------------------------------------
// Content hashing: a 64-bit FNV-1a digest over the payload's UTF-8 bytes.
// ---------------------------------------------------------------------------

pub const FNV_OFFSET: u64 = 0xcbf29ce484222325;

pub const FNV_PRIME: u64 = 0x100000001b3;

pub open spec fn fnv_step(h: u64, b: u8) -> u64 {
    vstd::wrapping::u64_specs::wrapping_mul(h ^ (b as u64), FNV_PRIME)
}

/// The FNV-1a digest of a byte sequence, folded left to right.
pub open spec fn fnv1a(bytes: Seq<u8>) -> u64
    decreases bytes.len(),
{
    if bytes.len() == 0 {
        FNV_OFFSET
    } else {
        fnv_step(fnv1a(bytes.drop_last()), bytes.last())
    }
}

/// The digest of a SQL payload: FNV-1a over its UTF-8 encoding.
pub open spec fn sql_hash(s: Seq<char>) -> u64 {
    fnv1a(vstd::utf8::encode_utf8(s))
}

/// Hashes are a pure function of the payload bytes.
pub fn hash_sql(s: &str) -> (r: u64)
    ensures
        r == sql_hash(s@),
{
    let bytes: &[u8] = s.as_bytes();
    let n: usize = bytes.len();
    let mut h: u64 = FNV_OFFSET;
    let mut i: usize = 0;
    while i < n
        invariant
            0 <= i <= n,
            n == bytes@.len(),
            bytes@ == s.spec_bytes(),
            h == fnv1a(bytes@.take(i as int)),
        decreases n - i,
    {
        let b: u8 = bytes[i];
        h = (h ^ (b as u64)).wrapping_mul(FNV_PRIME);
        proof {
            assert(bytes@.take(i + 1).drop_last() =~= bytes@.take(i as int));
            assert(bytes@.take(i + 1).last() == bytes@[i as int]);
        }
        i = i + 1;
    }
    proof {
        assert(bytes@.take(n as int) =~= bytes@);
    }
    h
}

// ---------------------------------------------------------------------------
// The migration record.
// ---------------------------------------------------------------------------

/// An immutable migration record.
///
/// A record built from local files carries both payloads and both hashes; a
/// record read back from the tracking table carries no up-SQL but does carry
/// the up-hash recorded at apply time, and the down-SQL so a down step can
/// execute.
#[derive(Debug, PartialEq)]
pub struct Migration {
    pub name: String,
    pub stamp: Stamp,
    pub up_sql: Option<String>,
    pub down_sql: Option<String>,
    pub up_hash: Option<u64>,
    pub down_hash: Option<u64>,
}

/// A name is printable as part of a key: non-empty.
pub open spec fn valid_name(name: Seq<char>) -> bool {
    name.len() > 0
}

impl Migration {
    /// Well-formedness: the key renders, and every present payload is
    /// accompanied by exactly its own digest.
    pub open spec fn wf(self) -> bool {
        valid_name(self.name@) && self.stamp.valid() && (self.up_sql matches Some(s)
            ==> self.up_hash == Some(sql_hash(s@))) && (self.down_sql matches Some(s)
            ==> self.down_hash == Some(sql_hash(s@)))
    }

    /// The key order: timestamp first, name as tiebreak.
    pub open spec fn key_lt(self, o: Migration) -> bool {
        self.stamp.spec_lt(o.stamp) || (self.stamp == o.stamp && lex_lt(self.name@, o.name@))
    }

    /// Two records are the same entity when their keys coincide.
    pub open spec fn key_eq(self, o: Migration) -> bool {
        self.stamp == o.stamp && self.name@ == o.name@
    }

    pub open spec fn key_le(self, o: Migration) -> bool {
        self.key_lt(o) || self.key_eq(o)
    }

    /// Three-way comparison of keys: negative, zero, or positive as
    /// `self`'s key is below, equal to, or above `o`'s.
    pub fn key_cmp(&self, o: &Migration) -> (r: i8)
        ensures
            (r == -1i8) == self.key_lt(*o),
            (r == 0i8) == self.key_eq(*o),
            (r == 1i8) == o.key_lt(*self),
    {
        proof {
            lemma_lex_trichotomy(self.name@, o.name@);
        }
        if self.stamp.lt(&o.stamp) {
            -1
        } else if o.stamp.lt(&self.stamp) {
            1
        } else {
            name_cmp(self.name.as_str(), o.name.as_str())
        }
    }
}

/// Exactly one of the three outcomes holds for any two keys.
pub proof fn lemma_key_trichotomy(a: Migration, b: Migration)
    ensures
        a.key_lt(b) || b.key_lt(a) || a.key_eq(b),
        !(a.key_lt(b) && b.key_lt(a)),
        a.key_lt(b) ==> !a.key_eq(b),
{
    lemma_lex_trichotomy(a.name@, b.name@);
}

pub proof fn lemma_key_lt_trans(a: Migration, b: Migration, c: Migration)
    requires
        a.key_lt(b),
        b.key_lt(c),
    ensures
        a.key_lt(c),
{
    if a.stamp == b.stamp && b.stamp == c.stamp {
        lemma_lex_lt_trans(a.name@, b.name@, c.name@);
    }
}

pub proof fn lemma_key_le_trans(a: Migration, b: Migration, c: Migration)
    requires
        a.key_le(b),
        b.key_le(c),
    ensures
        a.key_le(c),
{
    if a.key_lt(b) && b.key_lt(c) {
        lemma_key_lt_trans(a, b, c);
    }
}

/// Three-way lexicographic comparison of two names.
fn name_cmp(a: &str, b: &str) -> (r: i8)
    ensures
        (r == -1i8) == lex_lt(a@, b@),
        (r == 0i8) == (a@ == b@),
        (r == 1i8) == lex_lt(b@, a@),
{
    proof {
        lemma_lex_trichotomy(a@, b@);
    }
    let la: usize = a.unicode_len();
    let lb: usize = b.unicode_len();
    let mut i: usize = 0;
    proof {
        assert(a@.skip(0) =~= a@);
        assert(b@.skip(0) =~= b@);
    }
    while i < la && i < lb
        invariant
            0 <= i <= la,
            0 <= i <= lb,
            la == a@.len(),
            lb == b@.len(),
            lex_lt(a@, b@) == lex_lt(a@.skip(i as int), b@.skip(i as int)),
            lex_lt(b@, a@) == lex_lt(b@.skip(i as int), a@.skip(i as int)),
            (a@ == b@) == (a@.skip(i as int) =~= b@.skip(i as int)),
        decreases la - i,
    {
        let ca: char = a.get_char(i);
        let cb: char = b.get_char(i);
        proof {
            assert(a@.skip(i as int)[0] == a@[i as int]);
            assert(b@.skip(i as int)[0] == b@[i as int]);
            assert(a@.skip(i as int).drop_first() =~= a@.skip(i + 1));
            assert(b@.skip(i as int).drop_first() =~= b@.skip(i + 1));
        }
        if ca != cb {
            proof {
                lemma_lex_trichotomy(a@.skip(i as int), b@.skip(i as int));
            }
            if (ca as u32) < (cb as u32) {
                return -1;
            } else {
                return 1;
            }
        }
        proof {
            if a@.skip(i as int) =~= b@.skip(i as int) {
                assert(a@.skip(i + 1) =~= b@.skip(i + 1));
            } else if a@.skip(i + 1) =~= b@.skip(i + 1) {
                assert forall|j: int| 0 <= j < a@.skip(i as int).len() implies a@.skip(
                    i as int,
                )[j] == b@.skip(i as int)[j] by {
                    if j == 0 {
                        assert(a@.skip(i as int)[0] == ca);
                        assert(b@.skip(i as int)[0] == cb);
                    } else {
                        assert(a@.skip(i as int)[j] == a@.skip(i + 1)[j - 1]);
                        assert(b@.skip(i as int)[j] == b@.skip(i + 1)[j - 1]);
                    }
                }
                assert(a@.skip(i as int) =~= b@.skip(i as int));
            }
        }
        i = i + 1;
    }
    if i >= la && i >= lb {
        proof {
            assert(a@.skip(i as int).len() == 0);
            assert(b@.skip(i as int).len() == 0);
            assert(a@.skip(i as int) =~= b@.skip(i as int)) by {
                assert(forall|j: int| 0 <= j < a@.skip(i as int).len() ==> a@.skip(i as int)[j]
                    == b@.skip(i as int)[j]);
            }
        }
        0
    } else if i >= la {
        // a is a proper prefix of b
        -1
    } else {
        1
    }
}

} // verus!

verus! {

impl Clone for Migration {
    fn clone(&self) -> (r: Migration)
        ensures
            r == *self,
    {
        Migration {
            name: self.name.clone(),
            stamp: self.stamp,
            up_sql: clone_opt_string(&self.up_sql),
            down_sql: clone_opt_string(&self.down_sql),
            up_hash: self.up_hash,
            down_hash: self.down_hash,
        }
    }
}

fn clone_opt_string(o: &Option<String>) -> (r: Option<String>)
    ensures
        r == *o,
{
    match o {
        Some(s) => Some(s.clone()),
        None => None,
    }
}

// ---------------------------------------------------------------------------
// Construction.
// ---------------------------------------------------------------------------

/// Step-by-step construction of a migration; `build` validates and computes
/// the content hashes.
pub struct MigrationBuilder {
    pub name: Option<String>,
    pub stamp: Option<Stamp>,
    pub up_sql: Option<String>,
    pub down_sql: Option<String>,
}

/// The digest the builder records for an optional payload.
pub open spec fn hash_of_opt(sql: Option<String>) -> Option<u64> {
    match sql {
        Some(s) => Some(sql_hash(s@)),
        None => None,
    }
}

impl MigrationBuilder {
    pub fn new() -> (r: MigrationBuilder)
        ensures
            r.name is None,
            r.stamp is None,
            r.up_sql is None,
            r.down_sql is None,
    {
        MigrationBuilder { name: None, stamp: None, up_sql: None, down_sql: None }
    }

    pub fn name(self, n: &str) -> (r: MigrationBuilder)
        ensures
            r.name matches Some(s) && s@ == n@,
            r.stamp == self.stamp,
            r.up_sql == self.up_sql,
            r.down_sql == self.down_sql,
    {
        MigrationBuilder { name: Some(n.to_owned()), ..self }
    }

    pub fn date(self, stamp: Stamp) -> (r: MigrationBuilder)
        ensures
            r.stamp == Some(stamp),
            r.name == self.name,
            r.up_sql == self.up_sql,
            r.down_sql == self.down_sql,
    {
        MigrationBuilder { stamp: Some(stamp), ..self }
    }

    pub fn up_sql(self, sql: &str) -> (r: MigrationBuilder)
        ensures
            r.up_sql matches Some(s) && s@ == sql@,
            r.name == self.name,
            r.stamp == self.stamp,
            r.down_sql == self.down_sql,
    {
        MigrationBuilder { up_sql: Some(sql.to_owned()), ..self }
    }

    pub fn down_sql(self, sql: &str) -> (r: MigrationBuilder)
        ensures
            r.down_sql matches Some(s) && s@ == sql@,
            r.name == self.name,
            r.stamp == self.stamp,
            r.up_sql == self.up_sql,
    {
        MigrationBuilder { down_sql: Some(sql.to_owned()), ..self }
    }

    /// Succeeds exactly when a name and a timestamp were given, the name is
    /// non-empty, and the timestamp renders; the hashes of the result are
    /// computed from the payloads present.
    pub fn build(self) -> (r: Result<Migration, Error>)
        ensures
            r is Ok <==> ((self.name matches Some(n) && valid_name(n@)) && (self.stamp
                matches Some(st) && st.valid())),
            r matches Ok(m) ==> {
                &&& m.wf()
                &&& Some(m.name) == self.name
                &&& Some(m.stamp) == self.stamp
                &&& m.up_sql == self.up_sql
                &&& m.down_sql == self.down_sql
                &&& m.up_hash == hash_of_opt(self.up_sql)
                &&& m.down_hash == hash_of_opt(self.down_sql)
            },
            r is Err ==> r matches Err(Error::BadMigration),
    {
        let MigrationBuilder { name, stamp, up_sql, down_sql } = self;
        let name = match name {
            Some(n) => n,
            None => {
                return Err(Error::BadMigration);
            },
        };
        let stamp = match stamp {
            Some(st) => st,
            None => {
                return Err(Error::BadMigration);
            },
        };
        if name.as_str().is_empty() || !stamp.is_valid() {
            return Err(Error::BadMigration);
        }
        let up_hash: Option<u64> = match &up_sql {
            Some(s) => Some(hash_sql(s.as_str())),
            None => None,
        };
        let down_hash: Option<u64> = match &down_sql {
            Some(s) => Some(hash_sql(s.as_str())),
            None => None,
        };
        Ok(Migration { name, stamp, up_sql, down_sql, up_hash, down_hash })
    }
}

impl Stamp {
    pub fn is_valid(&self) -> (r: bool)
        ensures
            r == self.valid(),
    {
        self.year <= 9999 && 1 <= self.month && self.month <= 12 && 1 <= self.day && self.day
            <= 31 && self.hour <= 23 && self.minute <= 59 && self.second <= 59
    }
}

/// The bootstrap migration: named `movine_init`, stamped with the epoch so it
/// sorts before everything else, carrying the tracking-table DDL.
pub fn init_migration(up_sql: &str, down_sql: &str) -> (r: Migration)
    ensures
        r.wf(),
        r.name@ == "movine_init"@,
        r.stamp == spec_epoch(),
        r.up_sql matches Some(s) && s@ == up_sql@,
        r.down_sql matches Some(s) && s@ == down_sql@,
{
    proof {
        reveal_strlit("movine_init");
    }
    let b = MigrationBuilder::new().name("movine_init").date(Stamp::epoch()).up_sql(
        up_sql,
    ).down_sql(down_sql);
    match b.build() {
        Ok(m) => m,
        Err(_) => vstd::pervasive::unreached(),
    }
}

// ---------------------------------------------------------------------------
// The current time, for freshly generated migrations.
// ---------------------------------------------------------------------------

/// Relies on std::time::SystemTime::now and chrono::DateTime::from_timestamp
/// with the Datelike/Timelike accessors: the month is in 1..=12, the day in
/// 1..=31, the hour below 24, minute and second below 60. Nothing is promised
/// of the year. A clock before 1970 or beyond chrono's range falls back to
/// the epoch rather than aborting.
#[verifier::external_body]
fn utc_now_parts() -> (r: (i32, u32, u32, u32, u32, u32))
    ensures
        1 <= r.1 <= 12,
        1 <= r.2 <= 31,
        r.3 <= 23,
        r.4 <= 59,
        r.5 <= 59,
{
    let secs: i64 = match std::time::SystemTime::now().duration_since(std::time::UNIX_EPOCH) {
        Ok(d) => d.as_secs() as i64,
        Err(_) => 0,
    };
    let t = chrono::DateTime::from_timestamp(secs, 0).unwrap_or_default();
    (t.year(), t.month(), t.day(), t.hour(), t.minute(), t.second())
}

/// Accepts the clock's reading exactly when the year fits the four-digit key
/// format and the remaining components are in range.
pub fn stamp_from_parts(year: i32, month: u32, day: u32, hour: u32, minute: u32, second: u32) -> (r:
    Option<Stamp>)
    ensures
        r is Some <==> (0 <= year <= 9999 && 1 <= month <= 12 && 1 <= day <= 31 && hour <= 23
            && minute <= 59 && second <= 59),
        r matches Some(st) ==> (st == (Stamp {
            year: year as u32,
            month,
            day,
            hour,
            minute,
            second,
        }) && st.valid()),
{
    if 0 <= year && year <= 9999 && 1 <= month && month <= 12 && 1 <= day && day <= 31 && hour
        <= 23 && minute <= 59 && second <= 59 {
        Some(Stamp { year: year as u32, month, day, hour, minute, second })
    } else {
        None
    }
}

/// Builds an empty migration stub keyed by the current time.
///
/// Fails with `BadMigration` when the name is empty or not ASCII, and also
/// when the clock reports a year outside the key format; for any clock
/// reading with an in-range year, a valid name succeeds.
pub fn generate_migration(name: &str) -> (r: Result<Migration, Error>)
    ensures
        r matches Ok(m) ==> {
            &&& m.wf()
            &&& m.name@ == name@
            &&& m.up_sql is None
            &&& m.down_sql is None
            &&& m.up_hash is None
            &&& m.down_hash is None
        },
        !valid_name(name@) ==> r is Err,
        r is Err ==> r matches Err(Error::BadMigration),
{
    let (y, mo, d, h, mi, s) = utc_now_parts();
    match stamp_from_parts(y, mo, d, h, mi, s) {
        Some(st) => MigrationBuilder::new().name(name).date(st).build(),
        None => Err(Error::BadMigration),
    }
}

} // verus!

verus! {

// ---------------------------------------------------------------------------
// The key: rendering and parsing of `YYYY-MM-DD-HHMMSS_name`.
// ---------------------------------------------------------------------------

/// The byte of the decimal digit for `d % 10`.
pub open spec fn dbyte(d: int) -> u8 {
    (48 + (d % 10)) as u8
}

/// The bytes of the timestamp part of a key, `YYYY-MM-DD-HHMMSS_`.
pub open spec fn key_head_bytes(st: Stamp) -> Seq<u8> {
    seq![
        dbyte(st.year as int / 1000),
        dbyte(st.year as int / 100),
        dbyte(st.year as int / 10),
        dbyte(st.year as int),
        45,
        dbyte(st.month as int / 10),
        dbyte(st.month as int),
        45,
        dbyte(st.day as int / 10),
        dbyte(st.day as int),
        45,
        dbyte(st.hour as int / 10),
        dbyte(st.hour as int),
        dbyte(st.minute as int / 10),
        dbyte(st.minute as int),
        dbyte(st.second as int / 10),
        dbyte(st.second as int),
        95,
    ]
}

/// The canonical key of a migration with the given timestamp and name: the
/// rendered timestamp, an underscore, and the name.
pub open spec fn key_chars(st: Stamp, name: Seq<char>) -> Seq<char> {
    key_head_bytes(st).map_values(|b: u8| b as char) + name
}

pub open spec fn is_digit(c: char) -> bool {
    48 <= (c as u32) <= 57
}

/// The numeric value of a digit character.
pub open spec fn dv(c: char) -> int {
    (c as u32) - 48
}

/// The timestamp encoded in the first seventeen characters of a key.
pub open spec fn parsed_stamp(s: Seq<char>) -> Stamp {
    Stamp {
        year: (dv(s[0]) * 1000 + dv(s[1]) * 100 + dv(s[2]) * 10 + dv(s[3])) as u32,
        month: (dv(s[5]) * 10 + dv(s[6])) as u32,
        day: (dv(s[8]) * 10 + dv(s[9])) as u32,
        hour: (dv(s[11]) * 10 + dv(s[12])) as u32,
        minute: (dv(s[13]) * 10 + dv(s[14])) as u32,
        second: (dv(s[15]) * 10 + dv(s[16])) as u32,
    }
}

/// A character sequence is a well-formed key: a dashed, zero-padded,
/// in-range timestamp, an underscore, and a non-empty name.
pub open spec fn parses_ok(s: Seq<char>) -> bool {
    &&& s.len() >= 19
    &&& is_digit(s[0]) && is_digit(s[1]) && is_digit(s[2]) && is_digit(s[3])
    &&& (s[4] as u32) == 45
    &&& is_digit(s[5]) && is_digit(s[6])
    &&& (s[7] as u32) == 45
    &&& is_digit(s[8]) && is_digit(s[9])
    &&& (s[10] as u32) == 45
    &&& is_digit(s[11]) && is_digit(s[12]) && is_digit(s[13]) && is_digit(s[14]) && is_digit(
        s[15],
    ) && is_digit(s[16])
    &&& (s[17] as u32) == 95
    &&& valid_name(s.skip(18))
    &&& parsed_stamp(s).valid()
}

/// The digit at one character position, if there is one.
fn digit_at(s: &str, i: usize) -> (r: Option<u32>)
    requires
        i < s@.len(),
    ensures
        r is Some <==> is_digit(s@[i as int]),
        r matches Some(d) ==> d == dv(s@[i as int]),
{
    let v: u32 = s.get_char(i) as u32;
    if 48 <= v && v <= 57 {
        Some(v - 48)
    } else {
        None
    }
}

/// Splits a directory name into the timestamp and the migration name.
///
/// Returns `None` exactly on a malformed key; such entries are skipped when
/// a migration directory is loaded.
pub fn parse_key(s: &str) -> (r: Option<(Stamp, String)>)
    ensures
        r is Some <==> parses_ok(s@),
        r matches Some(p) ==> p.0 == parsed_stamp(s@) && p.1@ == s@.skip(18),
{
    let n: usize = s.unicode_len();
    if n < 19 {
        return None;
    }
    let d0 = digit_at(s, 0);
    let d1 = digit_at(s, 1);
    let d2 = digit_at(s, 2);
    let d3 = digit_at(s, 3);
    let d5 = digit_at(s, 5);
    let d6 = digit_at(s, 6);
    let d8 = digit_at(s, 8);
    let d9 = digit_at(s, 9);
    let d11 = digit_at(s, 11);
    let d12 = digit_at(s, 12);
    let d13 = digit_at(s, 13);
    let d14 = digit_at(s, 14);
    let d15 = digit_at(s, 15);
    let d16 = digit_at(s, 16);
    if (s.get_char(4) as u32) != 45 || (s.get_char(7) as u32) != 45 || (s.get_char(10) as u32)
        != 45 || (s.get_char(17) as u32) != 95 {
        return None;
    }
    let st: Stamp = match (d0, d1, d2, d3, d5, d6, d8, d9, d11, d12, d13, d14, d15, d16) {
        (
            Some(y0),
            Some(y1),
            Some(y2),
            Some(y3),
            Some(m0),
            Some(m1),
            Some(a0),
            Some(a1),
            Some(h0),
            Some(h1),
            Some(i0),
            Some(i1),
            Some(c0),
            Some(c1),
        ) => Stamp {
            year: y0 * 1000 + y1 * 100 + y2 * 10 + y3,
            month: m0 * 10 + m1,
            day: a0 * 10 + a1,
            hour: h0 * 10 + h1,
            minute: i0 * 10 + i1,
            second: c0 * 10 + c1,
        },
        _ => {
            return None;
        },
    };
    if !st.is_valid() {
        return None;
    }
    let name_part: &str = s.substring_char(18, n);
    proof {
        assert(name_part@ =~= s@.skip(18));
    }
    Some((st, name_part.to_owned()))
}

/// Relies on String::from_utf8: a sequence of ASCII bytes is valid UTF-8 and
/// decodes to one character per byte.
#[verifier::external_body]
fn bytes_to_string(v: Vec<u8>) -> (r: String)
    requires
        forall|i: int| 0 <= i < v@.len() ==> v@[i] < 128,
    ensures
        r@.len() == v@.len(),
        forall|i: int| 0 <= i < v@.len() ==> #[trigger] r@[i] == (v@[i] as char),
{
    match String::from_utf8(v) {
        Ok(s) => s,
        Err(_) => String::new(),
    }
}

/// Pushes the two zero-padded decimal digits of `d`, which is below 100.
fn push_two_digits(v: &mut Vec<u8>, d: u32)
    requires
        d < 100,
    ensures
        final(v)@ == old(v)@ + seq![(48 + d / 10) as u8, (48 + d % 10) as u8],
{
    v.push((48 + d / 10) as u8);
    v.push((48 + d % 10) as u8);
    proof {
        assert(v@ =~= old(v)@ + seq![(48 + d / 10) as u8, (48 + d % 10) as u8]);
    }
}

/// Renders the canonical key of a timestamp and a name.
#[verifier::rlimit(60)]
pub fn key_string(st: &Stamp, name: &str) -> (r: String)
    requires
        st.valid(),
        valid_name(name@),
    ensures
        r@ == key_chars(*st, name@),
{
    let mut v: Vec<u8> = Vec::new();
    push_two_digits(&mut v, st.year / 100);
    push_two_digits(&mut v, st.year % 100);
    v.push(45);
    push_two_digits(&mut v, st.month);
    v.push(45);
    push_two_digits(&mut v, st.day);
    v.push(45);
    push_two_digits(&mut v, st.hour);
    push_two_digits(&mut v, st.minute);
    push_two_digits(&mut v, st.second);
    v.push(95);
    proof {
        assert(v@ =~= key_head_bytes(*st));
        assert(forall|i: int| 0 <= i < v@.len() ==> #[trigger] v@[i] < 128) by {
            assert(v@ =~= key_head_bytes(*st));
        }
    }
    let mut r = bytes_to_string(v);
    proof {
        assert(r@ =~= key_head_bytes(*st).map_values(|b: u8| b as char));
    }
    r.append(name);
    proof {
        assert(r@ =~= key_chars(*st, name@));
    }
    r
}

} // verus!
