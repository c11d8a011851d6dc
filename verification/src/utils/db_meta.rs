//! What a database says about itself: a small text file of `key=value` lines.

use vstd::prelude::*;

use crate::error_text::ErrorKind;
use crate::utils::text;
use crate::utils::text::{
    chars_of, join_path, owned, push_decimal, push_text, same_text, space,
};

verus! {

/// The version of the file's format.
pub const META_FORMAT_VERSION: u32 = 1;

/// The seed by which keys are hashed.
pub const HASH_SEED: u64 = 0;

/// What a database says about itself.
#[derive(Debug)]
pub struct DbMeta {
    /// The version of the file's format.
    pub format_version: u32,
    /// How many shards the database has.
    pub shard_count: usize,
    /// How keys are hashed.
    pub hash_algo: String,
    /// The seed by which keys are hashed.
    pub hash_seed: u64,
}

/// What a database says about itself, seen as plain values.
#[verifier::ext_equal]
pub struct Meta {
    /// The version of the file's format.
    pub format_version: u32,
    /// How many shards the database has.
    pub shard_count: usize,
    /// How keys are hashed.
    pub hash_algo: Seq<char>,
    /// The seed by which keys are hashed.
    pub hash_seed: u64,
}

impl View for DbMeta {
    type V = Meta;

    open spec fn view(&self) -> Meta {
        Meta {
            format_version: self.format_version,
            shard_count: self.shard_count,
            hash_algo: self.hash_algo@,
            hash_seed: self.hash_seed,
        }
    }
}

/// Why a database cannot be used.
#[derive(Debug)]
pub enum MetaError {
    /// A line is not of the form `key=value`.
    InvalidLine,
    /// The format version is no number.
    InvalidFormatVersion,
    /// The number of shards is no number.
    InvalidShardCount,
    /// The seed is no number.
    InvalidHashSeed,
    /// There is no format version.
    MissingFormatVersion,
    /// There is no number of shards.
    MissingShardCount,
    /// It is not said how keys are hashed.
    MissingHashAlgo,
    /// There is no seed.
    MissingHashSeed,
    /// The format has this version.
    FormatVersion(u32),
    /// The database has another number of shards.
    ShardCount {
        /// The number it should have.
        expected: usize,
        /// The number it has.
        found: usize,
    },
    /// Keys are hashed otherwise.
    HashAlgo(String),
    /// Keys are hashed with this seed.
    HashSeed(u64),
    /// There is another number of shard directories.
    ShardDirectories {
        /// The number there should be.
        wanted: usize,
        /// The number there is.
        present: usize,
    },
    /// A shard directory is missing.
    ShardGap {
        /// The one that should come next.
        missing: usize,
        /// The one that comes.
        following: usize,
    },
}

/// Why a database cannot be used, seen as plain values.
#[verifier::ext_equal]
pub enum MetaFault {
    /// See [`MetaError::InvalidLine`].
    InvalidLine,
    /// See [`MetaError::InvalidFormatVersion`].
    InvalidFormatVersion,
    /// See [`MetaError::InvalidShardCount`].
    InvalidShardCount,
    /// See [`MetaError::InvalidHashSeed`].
    InvalidHashSeed,
    /// See [`MetaError::MissingFormatVersion`].
    MissingFormatVersion,
    /// See [`MetaError::MissingShardCount`].
    MissingShardCount,
    /// See [`MetaError::MissingHashAlgo`].
    MissingHashAlgo,
    /// See [`MetaError::MissingHashSeed`].
    MissingHashSeed,
    /// See [`MetaError::FormatVersion`].
    FormatVersion(u32),
    /// See [`MetaError::ShardCount`].
    ShardCount(usize, usize),
    /// See [`MetaError::HashAlgo`].
    HashAlgo(Seq<char>),
    /// See [`MetaError::HashSeed`].
    HashSeed(u64),
    /// See [`MetaError::ShardDirectories`].
    ShardDirectories(usize, usize),
    /// See [`MetaError::ShardGap`].
    ShardGap(usize, usize),
}

impl View for MetaError {
    type V = MetaFault;

    open spec fn view(&self) -> MetaFault {
        match *self {
            MetaError::InvalidLine => MetaFault::InvalidLine,
            MetaError::InvalidFormatVersion => MetaFault::InvalidFormatVersion,
            MetaError::InvalidShardCount => MetaFault::InvalidShardCount,
            MetaError::InvalidHashSeed => MetaFault::InvalidHashSeed,
            MetaError::MissingFormatVersion => MetaFault::MissingFormatVersion,
            MetaError::MissingShardCount => MetaFault::MissingShardCount,
            MetaError::MissingHashAlgo => MetaFault::MissingHashAlgo,
            MetaError::MissingHashSeed => MetaFault::MissingHashSeed,
            MetaError::FormatVersion(found) => MetaFault::FormatVersion(found),
            MetaError::ShardCount { expected, found } => MetaFault::ShardCount(expected, found),
            MetaError::HashAlgo(found) => MetaFault::HashAlgo(found@),
            MetaError::HashSeed(found) => MetaFault::HashSeed(found),
            MetaError::ShardDirectories { wanted, present } => MetaFault::ShardDirectories(
                wanted,
                present,
            ),
            MetaError::ShardGap { missing, following } => MetaFault::ShardGap(missing, following),
        }
    }
}

impl MetaError {
    /// Of which kind the error is: whether the files are not as they should be, or the
    /// database was opened with other settings than it was made with.
    pub fn kind(&self) -> (r: ErrorKind)
        ensures
            r == match self@ {
                MetaFault::ShardCount(_, _) => ErrorKind::InvalidArgument,
                MetaFault::HashAlgo(_) => ErrorKind::InvalidArgument,
                MetaFault::HashSeed(_) => ErrorKind::InvalidArgument,
                MetaFault::ShardDirectories(_, _) => ErrorKind::InvalidArgument,
                _ => ErrorKind::Corruption,
            },
    {
        match self {
            MetaError::ShardCount { .. } => ErrorKind::InvalidArgument,
            MetaError::HashAlgo(_) => ErrorKind::InvalidArgument,
            MetaError::HashSeed(_) => ErrorKind::InvalidArgument,
            MetaError::ShardDirectories { .. } => ErrorKind::InvalidArgument,
            _ => ErrorKind::Corruption,
        }
    }

    /// What the error says.
    pub open spec fn text(&self) -> Seq<char> {
        match self@ {
            MetaFault::InvalidLine => "invalid meta line"@,
            MetaFault::InvalidFormatVersion => "invalid format_version"@,
            MetaFault::InvalidShardCount => "invalid shard_count"@,
            MetaFault::InvalidHashSeed => "invalid hash_seed"@,
            MetaFault::MissingFormatVersion => "missing format_version"@,
            MetaFault::MissingShardCount => "missing shard_count"@,
            MetaFault::MissingHashAlgo => "missing hash_algo"@,
            MetaFault::MissingHashSeed => "missing hash_seed"@,
            MetaFault::FormatVersion(found) => "db meta format_version mismatch: expected "@
                + text::decimal(META_FORMAT_VERSION as nat) + ", found "@ + text::decimal(
                found as nat,
            ),
            MetaFault::ShardCount(expected, found) => "db meta shard_count mismatch: expected "@
                + text::decimal(expected as nat) + ", found "@ + text::decimal(found as nat),
            MetaFault::HashAlgo(found) =>
                "db meta hash_algo mismatch: expected xxhash64, found "@ + found,
            MetaFault::HashSeed(found) => "db meta hash_seed mismatch: expected "@
                + text::decimal(HASH_SEED as nat) + ", found "@ + text::decimal(found as nat),
            MetaFault::ShardDirectories(wanted, present) =>
                "db shard directory count mismatch: expected "@ + text::decimal(wanted as nat)
                + ", found "@ + text::decimal(present as nat),
            MetaFault::ShardGap(missing, following) =>
                "non-contiguous shard directories: expected shard"@ + text::decimal(
                missing as nat,
            ) + ", found shard"@ + text::decimal(following as nat),
        }
    }

    /// What the error says.
    pub fn to_string(&self) -> (r: String)
        ensures
            r@ == self.text(),
    {
        match self {
            MetaError::InvalidLine => owned("invalid meta line"),
            MetaError::InvalidFormatVersion => owned("invalid format_version"),
            MetaError::InvalidShardCount => owned("invalid shard_count"),
            MetaError::InvalidHashSeed => owned("invalid hash_seed"),
            MetaError::MissingFormatVersion => owned("missing format_version"),
            MetaError::MissingShardCount => owned("missing shard_count"),
            MetaError::MissingHashAlgo => owned("missing hash_algo"),
            MetaError::MissingHashSeed => owned("missing hash_seed"),
            MetaError::FormatVersion(found) => two_numbers(
                "db meta format_version mismatch: expected ",
                META_FORMAT_VERSION as u128,
                ", found ",
                *found as u128,
            ),
            MetaError::ShardCount { expected, found } => two_numbers(
                "db meta shard_count mismatch: expected ",
                *expected as u128,
                ", found ",
                *found as u128,
            ),
            MetaError::HashAlgo(found) => {
                let mut out = owned("db meta hash_algo mismatch: expected xxhash64, found ");
                push_text(&mut out, found.as_str());
                out
            },
            MetaError::HashSeed(found) => two_numbers(
                "db meta hash_seed mismatch: expected ",
                HASH_SEED as u128,
                ", found ",
                *found as u128,
            ),
            MetaError::ShardDirectories { wanted, present } => two_numbers(
                "db shard directory count mismatch: expected ",
                *wanted as u128,
                ", found ",
                *present as u128,
            ),
            MetaError::ShardGap { missing, following } => two_numbers(
                "non-contiguous shard directories: expected shard",
                *missing as u128,
                ", found shard",
                *following as u128,
            ),
        }
    }
}

fn two_numbers(start: &str, a: u128, middle: &str, b: u128) -> (r: String)
    ensures
        r@ == start@ + text::decimal(a as nat) + middle@ + text::decimal(b as nat),
{
    let mut out = owned(start);
    push_decimal(&mut out, a);
    push_text(&mut out, middle);
    push_decimal(&mut out, b);
    out
}

/// The first place from `i` on that is no white space, or the end.
pub open spec fn lead(s: Seq<char>, i: int) -> int
    decreases s.len() - i,
{
    if i < s.len() && text::is_space(s[i]) {
        lead(s, i + 1)
    } else {
        i
    }
}

/// The last place up to `j` before which there is no white space, or the start.
pub open spec fn trail(s: Seq<char>, j: int) -> int
    decreases j,
{
    if j > 0 && text::is_space(s[j - 1]) {
        trail(s, j - 1)
    } else {
        j
    }
}

/// A text without the white space around it.
pub open spec fn trimmed(s: Seq<char>) -> Seq<char> {
    let a = lead(s, 0);
    let b = trail(s, s.len() as int);
    if a < b {
        s.subrange(a, b)
    } else {
        Seq::empty()
    }
}

/// The first place from `i` on with this character, or the end.
pub open spec fn next_place(s: Seq<char>, c: char, i: int) -> int
    decreases s.len() - i,
{
    if i < s.len() && s[i] != c {
        next_place(s, c, i + 1)
    } else {
        i
    }
}

/// The number that the digits from `i` on make, after those that made `so_far`; none where
/// there is something else, or the number is larger than `max`.
pub open spec fn number_from(s: Seq<char>, i: int, so_far: nat, max: nat) -> Option<nat>
    decreases s.len() - i,
{
    if i >= s.len() {
        Some(so_far)
    } else if '0' <= s[i] && s[i] <= '9' {
        let next = (so_far * 10 + (s[i] as nat - '0' as nat)) as nat;
        if next <= max {
            number_from(s, i + 1, next, max)
        } else {
            None
        }
    } else {
        None
    }
}

/// The number that a text is: digits, with a plus sign before them or not.
pub open spec fn number(s: Seq<char>, max: nat) -> Option<nat> {
    if s.len() == 0 {
        None
    } else if s[0] == '+' {
        if s.len() == 1 {
            None
        } else {
            number_from(s, 1, 0, max)
        }
    } else {
        number_from(s, 0, 0, max)
    }
}

/// What was read so far.
#[verifier::ext_equal]
pub struct Fields {
    /// The version of the file's format.
    pub format_version: Option<u32>,
    /// How many shards the database has.
    pub shard_count: Option<usize>,
    /// How keys are hashed.
    pub hash_algo: Option<Seq<char>>,
    /// The seed by which keys are hashed.
    pub hash_seed: Option<u64>,
}

/// What a line adds: nothing where it is empty, is a comment or has a key that is not
/// known.
pub open spec fn with_line(fields: Fields, raw: Seq<char>) -> Result<Fields, MetaFault> {
    let line = trimmed(raw);
    let at = next_place(line, '=', 0);
    let key = trimmed(line.subrange(0, at));
    let value = trimmed(line.subrange(at + 1, line.len() as int));
    if line.len() == 0 || line[0] == '#' {
        Ok(fields)
    } else if at >= line.len() || key.len() == 0 {
        Err(MetaFault::InvalidLine)
    } else {
        with_value(fields, key, value)
    }
}

/// What a key with a value adds.
pub open spec fn with_value(fields: Fields, key: Seq<char>, value: Seq<char>) -> Result<
    Fields,
    MetaFault,
> {
    if key == "format_version"@ {
        match number(value, u32::MAX as nat) {
            Some(n) => Ok(Fields { format_version: Some(n as u32), ..fields }),
            None => Err(MetaFault::InvalidFormatVersion),
        }
    } else if key == "shard_count"@ {
        match number(value, usize::MAX as nat) {
            Some(n) => Ok(Fields { shard_count: Some(n as usize), ..fields }),
            None => Err(MetaFault::InvalidShardCount),
        }
    } else if key == "hash_algo"@ {
        Ok(Fields { hash_algo: Some(value), ..fields })
    } else if key == "hash_seed"@ {
        match number(value, u64::MAX as nat) {
            Some(n) => Ok(Fields { hash_seed: Some(n as u64), ..fields }),
            None => Err(MetaFault::InvalidHashSeed),
        }
    } else {
        Ok(fields)
    }
}

/// What the lines from `i` on add.
pub open spec fn with_lines(fields: Fields, s: Seq<char>, i: int) -> Result<Fields, MetaFault>
    decreases s.len() - i,
{
    if i >= s.len() {
        Ok(fields)
    } else {
        let end = next_place(s, '\n', i);
        match with_line(fields, s.subrange(i, end)) {
            Err(e) => Err(e),
            Ok(more) => if i <= end < s.len() {
                with_lines(more, s, end + 1)
            } else {
                Ok(more)
            },
        }
    }
}

/// Nothing was read.
pub open spec fn no_fields() -> Fields {
    Fields { format_version: None, shard_count: None, hash_algo: None, hash_seed: None }
}

/// What a file with this text says.
pub open spec fn parsed(s: Seq<char>) -> Result<Meta, MetaFault> {
    match with_lines(no_fields(), s, 0) {
        Err(e) => Err(e),
        Ok(fields) => if fields.format_version is None {
            Err(MetaFault::MissingFormatVersion)
        } else if fields.shard_count is None {
            Err(MetaFault::MissingShardCount)
        } else if fields.hash_algo is None {
            Err(MetaFault::MissingHashAlgo)
        } else if fields.hash_seed is None {
            Err(MetaFault::MissingHashSeed)
        } else {
            Ok(
                Meta {
                    format_version: fields.format_version->Some_0,
                    shard_count: fields.shard_count->Some_0,
                    hash_algo: fields.hash_algo->Some_0,
                    hash_seed: fields.hash_seed->Some_0,
                },
            )
        },
    }
}

/// One line of a file.
pub open spec fn line_of(key: Seq<char>, value: Seq<char>) -> Seq<char> {
    key + "="@ + value + "\n"@
}

/// The text of a file that says this.
pub open spec fn rendered(meta: Meta) -> Seq<char> {
    line_of("format_version"@, text::decimal(meta.format_version as nat)) + line_of(
        "shard_count"@,
        text::decimal(meta.shard_count as nat),
    ) + line_of("hash_algo"@, meta.hash_algo) + line_of(
        "hash_seed"@,
        text::decimal(meta.hash_seed as nat),
    )
}

/// What is wrong with what a database says, where it should have so many shards.
pub open spec fn fault(meta: Meta, shard_count: usize) -> Option<MetaFault> {
    if meta.format_version != META_FORMAT_VERSION {
        Some(MetaFault::FormatVersion(meta.format_version))
    } else if meta.shard_count != shard_count {
        Some(MetaFault::ShardCount(shard_count, meta.shard_count))
    } else if meta.hash_algo != "xxhash64"@ {
        Some(MetaFault::HashAlgo(meta.hash_algo))
    } else if meta.hash_seed != HASH_SEED {
        Some(MetaFault::HashSeed(meta.hash_seed))
    } else {
        None
    }
}

/// What a new database with so many shards says.
pub open spec fn fresh(shard_count: usize) -> Meta {
    Meta {
        format_version: META_FORMAT_VERSION,
        shard_count,
        hash_algo: "xxhash64"@,
        hash_seed: HASH_SEED,
    }
}

fn next_char(s: &Vec<char>, c: char, i: usize) -> (r: usize)
    requires
        i <= s@.len(),
    ensures
        r == next_place(s@, c, i as int),
        i <= r <= s@.len(),
{
    let mut j: usize = i;
    while j < s.len() && s[j] != c
        invariant
            i <= j <= s@.len(),
            next_place(s@, c, j as int) == next_place(s@, c, i as int),
        decreases s.len() - j,
    {
        j = j + 1;
    }
    j
}

fn part(s: &Vec<char>, a: usize, b: usize) -> (r: Vec<char>)
    requires
        a <= b <= s@.len(),
    ensures
        r@ == s@.subrange(a as int, b as int),
{
    let mut out: Vec<char> = Vec::new();
    let mut i: usize = a;
    while i < b
        invariant
            a <= i <= b <= s@.len(),
            out@ == s@.subrange(a as int, i as int),
        decreases b - i,
    {
        out.push(s[i]);
        i = i + 1;
        assert(out@ =~= s@.subrange(a as int, i as int));
    }
    assert(out@ =~= s@.subrange(a as int, b as int));
    out
}

/// Where trimming starts and ends.
proof fn lemma_trim_bounds(s: Seq<char>, i: int, j: int)
    requires
        0 <= i <= s.len(),
        0 <= j <= s.len(),
    ensures
        i <= lead(s, i) <= s.len(),
        0 <= trail(s, j) <= j,
    decreases s.len() - i + j,
{
    if i < s.len() && text::is_space(s[i]) {
        lemma_trim_bounds(s, i + 1, j);
    }
    if j > 0 && text::is_space(s[j - 1]) {
        lemma_trim_bounds(s, i, j - 1);
    }
}

fn trim(s: &Vec<char>) -> (r: Vec<char>)
    ensures
        r@ == trimmed(s@),
{
    let mut a: usize = 0;
    while a < s.len() && space(s[a])
        invariant
            a <= s@.len(),
            lead(s@, a as int) == lead(s@, 0),
        decreases s.len() - a,
    {
        a = a + 1;
    }
    let mut b: usize = s.len();
    while b > 0 && space(s[b - 1])
        invariant
            b <= s@.len(),
            trail(s@, b as int) == trail(s@, s@.len() as int),
        decreases b,
    {
        b = b - 1;
    }
    if a < b {
        part(s, a, b)
    } else {
        let out: Vec<char> = Vec::new();
        assert(out@ =~= Seq::empty());
        out
    }
}

/// The number that a text is.
fn parse_number(s: &Vec<char>, max: u64) -> (r: Option<u64>)
    ensures
        match number(s@, max as nat) {
            Some(n) => r is Some && r->Some_0 == n,
            None => r is None,
        },
        r matches Some(n) ==> n <= max,
{
    if s.len() == 0 {
        return None;
    }
    let mut i: usize = 0;
    if s[0] == '+' {
        if s.len() == 1 {
            return None;
        }
        i = 1;
    }
    let mut so_far: u64 = 0;
    while i < s.len()
        invariant
            i <= s@.len(),
            s@.len() > 0,
            so_far <= max,
            number_from(s@, i as int, so_far as nat, max as nat) == number(s@, max as nat),
        decreases s.len() - i,
    {
        let c: char = s[i];
        if !('0' <= c && c <= '9') {
            return None;
        }
        let digit: u128 = (c as u32 - '0' as u32) as u128;
        let next: u128 = so_far as u128 * 10 + digit;
        if next > max as u128 {
            return None;
        }
        so_far = next as u64;
        i = i + 1;
    }
    Some(so_far)
}

/// Whether characters are those of a text.
fn is_text(s: &Vec<char>, text: &str) -> (r: bool)
    ensures
        r == (s@ == text@),
{
    let chars = chars_of(text);
    if s.len() != chars.len() {
        return false;
    }
    let mut i: usize = 0;
    while i < s.len()
        invariant
            i <= s@.len(),
            s@.len() == chars@.len(),
            chars@ == text@,
            forall|j: int| 0 <= j < i ==> s@[j] == chars@[j],
        decreases s.len() - i,
    {
        if s[i] != chars[i] {
            assert(s@[i as int] != text@[i as int]);
            return false;
        }
        i = i + 1;
    }
    assert(s@ =~= text@);
    true
}

fn text_of(s: &Vec<char>) -> (r: String)
    ensures
        r@ == s@,
{
    let mut out = String::new();
    let mut i: usize = 0;
    while i < s.len()
        invariant
            i <= s@.len(),
            out@ == s@.subrange(0, i as int),
        decreases s.len() - i,
    {
        out.push(s[i]);
        i = i + 1;
        assert(out@ =~= s@.subrange(0, i as int));
    }
    assert(s@.subrange(0, s@.len() as int) =~= s@);
    out
}

/// What was read so far.
struct PartialMeta {
    format_version: Option<u32>,
    shard_count: Option<usize>,
    hash_algo: Option<String>,
    hash_seed: Option<u64>,
}

impl PartialMeta {
    spec fn fields(self) -> Fields {
        Fields {
            format_version: self.format_version,
            shard_count: self.shard_count,
            hash_algo: match self.hash_algo {
                Some(algo) => Some(algo@),
                None => None,
            },
            hash_seed: self.hash_seed,
        }
    }

    /// Reads a line.
    fn read_line(&mut self, raw: &Vec<char>) -> (r: Result<(), MetaError>)
        ensures
            match with_line(old(self).fields(), raw@) {
                Ok(fields) => r is Ok && final(self).fields() == fields,
                Err(e) => r is Err && r->Err_0@ == e,
            },
    {
        let line = trim(raw);
        if line.len() == 0 {
            return Ok(());
        }
        if line[0] == '#' {
            return Ok(());
        }
        let at: usize = next_char(&line, '=', 0);
        if at >= line.len() {
            return Err(MetaError::InvalidLine);
        }
        let key = trim(&part(&line, 0, at));
        if key.len() == 0 {
            return Err(MetaError::InvalidLine);
        }
        let value = trim(&part(&line, at + 1, line.len()));
        if is_text(&key, "format_version") {
            match parse_number(&value, u32::MAX as u64) {
                Some(n) => {
                    self.format_version = Some(n as u32);
                },
                None => {
                    return Err(MetaError::InvalidFormatVersion);
                },
            }
        } else if is_text(&key, "shard_count") {
            match parse_number(&value, usize::MAX as u64) {
                Some(n) => {
                    self.shard_count = Some(n as usize);
                },
                None => {
                    return Err(MetaError::InvalidShardCount);
                },
            }
        } else if is_text(&key, "hash_algo") {
            self.hash_algo = Some(text_of(&value));
        } else if is_text(&key, "hash_seed") {
            match parse_number(&value, u64::MAX) {
                Some(n) => {
                    self.hash_seed = Some(n);
                },
                None => {
                    return Err(MetaError::InvalidHashSeed);
                },
            }
        }
        Ok(())
    }
}

/// What a file with this text says.
pub fn read_meta(content: &str) -> (r: Result<DbMeta, MetaError>)
    ensures
        match parsed(content@) {
            Ok(meta) => r is Ok && r->Ok_0@ == meta,
            Err(e) => r is Err && r->Err_0@ == e,
        },
{
    let chars = chars_of(content);
    let mut read = PartialMeta {
        format_version: None,
        shard_count: None,
        hash_algo: None,
        hash_seed: None,
    };
    let mut i: usize = 0;
    while i < chars.len()
        invariant
            chars@ == content@,
            with_lines(read.fields(), content@, i as int) == with_lines(
                no_fields(),
                content@,
                0,
            ),
        decreases (if chars@.len() > i {
            chars@.len() - i
        } else {
            0
        }),
    {
        let end: usize = next_char(&chars, '\n', i);
        let line = part(&chars, i, end);
        if let Err(e) = read.read_line(&line) {
            return Err(e);
        }
        if end >= chars.len() {
            i = chars.len();
        } else {
            i = end + 1;
        }
    }
    let format_version: u32 = match read.format_version {
        Some(n) => n,
        None => {
            return Err(MetaError::MissingFormatVersion);
        },
    };
    let shard_count: usize = match read.shard_count {
        Some(n) => n,
        None => {
            return Err(MetaError::MissingShardCount);
        },
    };
    let hash_algo = match read.hash_algo {
        Some(algo) => algo,
        None => {
            return Err(MetaError::MissingHashAlgo);
        },
    };
    let hash_seed: u64 = match read.hash_seed {
        Some(n) => n,
        None => {
            return Err(MetaError::MissingHashSeed);
        },
    };
    Ok(DbMeta { format_version, shard_count, hash_algo, hash_seed })
}

fn push_line(out: &mut String, key: &str, value: &str)
    ensures
        final(out)@ == old(out)@ + line_of(key@, value@),
{
    push_text(out, key);
    push_text(out, "=");
    push_text(out, value);
    push_text(out, "\n");
    assert(out@ =~= old(out)@ + line_of(key@, value@));
}

fn number_text(n: u128) -> (r: String)
    ensures
        r@ == text::decimal(n as nat),
{
    let mut out = String::new();
    push_decimal(&mut out, n);
    assert(out@ =~= text::decimal(n as nat));
    out
}

/// The text of a file that says this.
pub fn write_meta(meta: &DbMeta) -> (r: String)
    ensures
        r@ == rendered(meta@),
{
    let mut out = String::new();
    push_line(&mut out, "format_version", number_text(meta.format_version as u128).as_str());
    push_line(&mut out, "shard_count", number_text(meta.shard_count as u128).as_str());
    push_line(&mut out, "hash_algo", meta.hash_algo.as_str());
    push_line(&mut out, "hash_seed", number_text(meta.hash_seed as u128).as_str());
    assert(out@ =~= rendered(meta@));
    out
}

/// Whether what a database says fits so many shards.
pub fn validate_meta(meta: &DbMeta, shard_count: usize) -> (r: Result<(), MetaError>)
    ensures
        match fault(meta@, shard_count) {
            Some(e) => r is Err && r->Err_0@ == e,
            None => r is Ok,
        },
{
    if meta.format_version != META_FORMAT_VERSION {
        return Err(MetaError::FormatVersion(meta.format_version));
    }
    if meta.shard_count != shard_count {
        return Err(MetaError::ShardCount { expected: shard_count, found: meta.shard_count });
    }
    if !same_text(meta.hash_algo.as_str(), "xxhash64") {
        return Err(MetaError::HashAlgo(owned(meta.hash_algo.as_str())));
    }
    if meta.hash_seed != HASH_SEED {
        return Err(MetaError::HashSeed(meta.hash_seed));
    }
    Ok(())
}

impl DbMeta {
    /// What a new database with so many shards says.
    pub fn for_options(shard_count: usize) -> (r: DbMeta)
        ensures
            r@ == fresh(shard_count),
    {
        DbMeta {
            format_version: META_FORMAT_VERSION,
            shard_count,
            hash_algo: owned("xxhash64"),
            hash_seed: HASH_SEED,
        }
    }
}

/// The number in the name of a shard directory.
pub open spec fn shard_number(name: Seq<char>) -> Option<nat> {
    if name.len() >= 5 && name.subrange(0, 5) == "shard"@ {
        number(name.subrange(5, name.len() as int), usize::MAX as nat)
    } else {
        None
    }
}

/// Shard `n` has a directory among these names, of which the flag says whether they are
/// those of directories.
pub open spec fn has_shard(entries: Seq<(String, bool)>, n: nat) -> bool {
    exists|i: int|
        0 <= i < entries.len() && (#[trigger] entries[i]).1 && shard_number(entries[i].0@) == Some(n)
}

/// What the names in a directory tell of its shards: none where there are none; their
/// number where they are numbered from 0 on; else the first number that is missing and the
/// next that is there.
pub open spec fn shards_told(
    entries: Seq<(String, bool)>,
    r: Result<Option<usize>, MetaFault>,
) -> bool {
    match r {
        Ok(None) => forall|n: nat| !has_shard(entries, n),
        Ok(Some(count)) => count > 0 && forall|n: nat| has_shard(entries, n) <==> n < count,
        Err(MetaFault::ShardGap(missing, following)) => {
            &&& missing < following
            &&& has_shard(entries, following as nat)
            &&& forall|n: nat| n < missing ==> has_shard(entries, n)
            &&& forall|n: nat| missing <= n < following ==> !has_shard(entries, n)
        },
        Err(_) => false,
    }
}

/// The list holds a number.
spec fn holds(list: Seq<usize>, n: nat) -> bool {
    exists|j: int| 0 <= j < list.len() && #[trigger] list[j] == n
}

fn number_in_name(name: &str) -> (r: Option<usize>)
    ensures
        match shard_number(name@) {
            Some(n) => r is Some && r->Some_0 == n,
            None => r is None,
        },
{
    let chars = chars_of(name);
    if chars.len() < 5 {
        return None;
    }
    let start = part(&chars, 0, 5);
    if !is_text(&start, "shard") {
        return None;
    }
    let rest = part(&chars, 5, chars.len());
    match parse_number(&rest, usize::MAX as u64) {
        Some(n) => Some(n as usize),
        None => None,
    }
}

fn numbers_of(entries: &[(String, bool)]) -> (r: Vec<usize>)
    ensures
        forall|n: nat| #[trigger] has_shard(entries@, n) <==> holds(r@, n),
{
    let mut out: Vec<usize> = Vec::new();
    let mut i: usize = 0;
    while i < entries.len()
        invariant
            i <= entries@.len(),
            forall|j: int|
                0 <= j < out@.len() ==> exists|k: int|
                    0 <= k < i && (#[trigger] entries@[k]).1 && shard_number(entries@[k].0@)
                        == Some(#[trigger] out@[j] as nat),
            forall|k: int|
                0 <= k < i && (#[trigger] entries@[k]).1 ==> (shard_number(entries@[k].0@) matches Some(
                    n,
                ) ==> exists|j: int| 0 <= j < out@.len() && #[trigger] out@[j] == n),
        decreases entries.len() - i,
    {
        let ghost before = out@;
        if entries[i].1 {
            if let Some(n) = number_in_name(entries[i].0.as_str()) {
                out.push(n);
                assert(out@[out@.len() - 1] == n);
            }
        }
        proof {
            assert forall|j: int| 0 <= j < out@.len() implies exists|k: int|
                0 <= k < i + 1 && (#[trigger] entries@[k]).1 && shard_number(entries@[k].0@)
                    == Some(#[trigger] out@[j] as nat) by {
                if j < before.len() {
                    assert(out@[j] == before[j]);
                    let k = choose|k: int|
                        0 <= k < i && (#[trigger] entries@[k]).1 && shard_number(entries@[k].0@)
                            == Some(before[j] as nat);
                    assert(entries@[k].1);
                } else {
                    assert(entries@[i as int].1);
                }
            }
            assert forall|k: int| 0 <= k < i + 1 && (#[trigger] entries@[k]).1 implies (
            shard_number(entries@[k].0@) matches Some(n) ==> exists|j: int|
                0 <= j < out@.len() && #[trigger] out@[j] == n) by {
                if k < i && shard_number(entries@[k].0@) is Some {
                    let n = shard_number(entries@[k].0@)->Some_0;
                    let j = choose|j: int| 0 <= j < before.len() && #[trigger] before[j] == n;
                    assert(out@[j] == n);
                }
            }
        }
        i = i + 1;
    }
    assert forall|n: nat| #[trigger] has_shard(entries@, n) <==> holds(out@, n) by {
        if has_shard(entries@, n) {
            let k = choose|k: int|
                0 <= k < entries@.len() && (#[trigger] entries@[k]).1 && shard_number(
                    entries@[k].0@,
                ) == Some(n);
            assert(entries@[k].1);
        }
        if holds(out@, n) {
            let j = choose|j: int| 0 <= j < out@.len() && #[trigger] out@[j] == n;
            assert(out@[j] == n);
            let k = choose|k: int|
                0 <= k < entries@.len() && (#[trigger] entries@[k]).1 && shard_number(
                    entries@[k].0@,
                ) == Some(out@[j] as nat);
            assert(entries@[k].1);
        }
    }
    out
}

fn holds_number(list: &Vec<usize>, n: usize) -> (r: bool)
    ensures
        r == holds(list@, n as nat),
{
    let mut i: usize = 0;
    while i < list.len()
        invariant
            i <= list@.len(),
            forall|j: int| 0 <= j < i ==> list@[j] != n,
        decreases list.len() - i,
    {
        if list[i] == n {
            assert(list@[i as int] == n);
            return true;
        }
        i = i + 1;
    }
    false
}

/// The smallest number of the list above `n`, or none.
fn smallest_above(list: &Vec<usize>, n: usize) -> (r: Option<usize>)
    ensures
        match r {
            Some(m) => n < m && holds(list@, m as nat)
                && forall|j: int| 0 <= j < list@.len() ==> (#[trigger] list@[j]) <= n || list@[j] >= m,
            None => forall|j: int| 0 <= j < list@.len() ==> (#[trigger] list@[j]) <= n,
        },
{
    let mut best: Option<usize> = None;
    let mut i: usize = 0;
    while i < list.len()
        invariant
            i <= list@.len(),
            match best {
                Some(m) => n < m && (exists|j: int| 0 <= j < i && #[trigger] list@[j] == m)
                    && forall|j: int| 0 <= j < i ==> (#[trigger] list@[j]) <= n || list@[j] >= m,
                None => forall|j: int| 0 <= j < i ==> (#[trigger] list@[j]) <= n,
            },
        decreases list.len() - i,
    {
        let x: usize = list[i];
        if x > n {
            match best {
                Some(m) => {
                    if x < m {
                        best = Some(x);
                    }
                },
                None => {
                    best = Some(x);
                },
            }
        }
        i = i + 1;
    }
    best
}

/// A list that holds all numbers below `n` has at least as many.
proof fn lemma_holds_all(list: Seq<usize>, n: nat)
    requires
        forall|m: nat| m < n ==> #[trigger] holds(list, m),
    ensures
        n <= list.len(),
    decreases n,
{
    if n > 0 {
        let top = (n - 1) as nat;
        assert(holds(list, top));
        let at = choose|j: int| 0 <= j < list.len() && #[trigger] list[j] == top;
        let rest = list.remove(at);
        assert forall|m: nat| m < top implies #[trigger] holds(rest, m) by {
            assert(holds(list, m));
            let j = choose|j: int| 0 <= j < list.len() && #[trigger] list[j] == m;
            let k = if j < at {
                j
            } else {
                j - 1
            };
            assert(rest[k] == m);
        }
        lemma_holds_all(rest, top);
    }
}

/// What the names in a directory tell of its shards.
pub fn detect_existing_shards(entries: &[(String, bool)]) -> (r: Result<Option<usize>, MetaError>)
    ensures
        shards_told(
            entries@,
            match r {
                Ok(count) => Ok(count),
                Err(e) => Err(e@),
            },
        ),
{
    let numbers = numbers_of(entries);
    if numbers.len() == 0 {
        return Ok(None);
    }
    let mut next: usize = 0;
    while next < usize::MAX && holds_number(&numbers, next)
        invariant
            forall|n: nat| #[trigger] has_shard(entries@, n) <==> holds(numbers@, n),
            forall|n: nat| n < next ==> #[trigger] has_shard(entries@, n),
        decreases usize::MAX - next,
    {
        assert(has_shard(entries@, next as nat));
        next = next + 1;
    }
    proof {
        assert(numbers@.len() == numbers.len());
        if has_shard(entries@, next as nat) {
            assert forall|m: nat| m < next + 1 implies #[trigger] holds(numbers@, m) by {
                assert(has_shard(entries@, m));
            }
            lemma_holds_all(numbers@, (next + 1) as nat);
        }
    }
    match smallest_above(&numbers, next) {
        Some(following) => {
            proof {
                assert(has_shard(entries@, following as nat));
                assert forall|n: nat| next <= n < following implies !has_shard(entries@, n) by {
                    if has_shard(entries@, n) {
                        let j = choose|j: int| 0 <= j < numbers@.len() && #[trigger] numbers@[j] == n;
                        assert(numbers@[j] == n);
                    }
                }
            }
            Err(MetaError::ShardGap { missing: next, following })
        },
        None => {
            proof {
                assert forall|n: nat| has_shard(entries@, n) <==> n < next by {
                    if has_shard(entries@, n) {
                        let j = choose|j: int| 0 <= j < numbers@.len() && #[trigger] numbers@[j] == n;
                        assert(numbers@[j] <= next);
                    }
                }
                assert(numbers@[0] == numbers@[0] as nat);
                assert(has_shard(entries@, numbers@[0] as nat));
            }
            Ok(Some(next))
        },
    }
}

/// What is to be done with a database that should have so many shards: the text that its
/// file is to get, none where it has one that fits, or why it cannot be used. `content` is
/// the text of the file where there is one; `entries` are the names in the directory.
pub fn ensure_db_meta(
    content: Option<&str>,
    entries: &[(String, bool)],
    shard_count: usize,
) -> (r: Result<Option<String>, MetaError>)
    ensures
        match content {
            Some(text) => match parsed(text@) {
                Err(e) => r is Err && r->Err_0@ == e,
                Ok(meta) => match fault(meta, shard_count) {
                    Some(e) => r is Err && r->Err_0@ == e,
                    None => r is Ok && r->Ok_0 is None,
                },
            },
            None => match r {
                Ok(text) => text is Some && text->Some_0@ == rendered(fresh(shard_count)) && (
                shards_told(entries@, Ok(None)) || shards_told(entries@, Ok(Some(shard_count)))),
                Err(e) => match e@ {
                    MetaFault::ShardDirectories(wanted, present) => wanted == shard_count
                        && present != shard_count && shards_told(entries@, Ok(Some(present))),
                    _ => shards_told(entries@, Err(e@)),
                },
            },
        },
{
    if let Some(text) = content {
        return match read_meta(text) {
            Err(e) => Err(e),
            Ok(meta) => match validate_meta(&meta, shard_count) {
                Err(e) => Err(e),
                Ok(()) => Ok(None),
            },
        };
    }
    match detect_existing_shards(entries) {
        Err(e) => {
            return Err(e);
        },
        Ok(Some(existing)) => {
            if existing != shard_count {
                return Err(
                    MetaError::ShardDirectories { wanted: shard_count, present: existing },
                );
            }
        },
        Ok(None) => {},
    }
    let meta = DbMeta::for_options(shard_count);
    Ok(Some(write_meta(&meta)))
}

/// The path of the file in a directory.
pub fn meta_path(data_dir: &str) -> (r: String)
    ensures
        r@ == text::joined(data_dir@, "GOATDB_META"@),
{
    join_path(data_dir, "GOATDB_META")
}

/// The path under which the file is written before it gets its name.
pub fn meta_temp_path(data_dir: &str) -> (r: String)
    ensures
        r@ == text::joined(data_dir@, "GOATDB_META.tmp"@),
{
    join_path(data_dir, "GOATDB_META.tmp")
}

} // verus!
