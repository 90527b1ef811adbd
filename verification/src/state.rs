//! The sync state (what was synchronized, when, and with which content) and
//! conflict detection between a target file and its source copy.

use vstd::prelude::*;
use vstd::hash_map::StringHashMap;
use crate::text::{chars_of, string_of, decimal, dec_spec, parse_unsigned, parse_unsigned_spec, concat_str, ends_with, has_suffix, lemma_dec_roundtrip, is_digit, unsigned_digits};
use crate::error::DfmError;
use crate::paths::{state_key_for, state_key_spec};
use sha2::Digest;

verus! {

// Content hashes

/// The SHA-256 digest of `data`.
pub uninterp spec fn sha256_digest(data: Seq<u8>) -> Seq<u8>;

/// Calls `sha2::Sha256::digest`. The contract claims the result is the named
/// digest of `data` and has the digest's 32 bytes.
#[verifier::external_body]
fn sha256_bytes(data: &[u8]) -> (d: Vec<u8>)
    ensures
        d@ == sha256_digest(data@),
        d@.len() == 32,
{
    sha2::Sha256::digest(data).to_vec()
}

/// The lowercase hexadecimal digit of `d`.
pub open spec fn hex_char(d: nat) -> char {
    if d < 10 { crate::text::digit_char(d) } else if d == 10 { 'a' } else if d == 11 { 'b' } else if d == 12 { 'c' }
    else if d == 13 { 'd' } else if d == 14 { 'e' } else { 'f' }
}

/// Lowercase hexadecimal text of `bytes`, two digits per byte.
pub open spec fn hex_spec(bytes: Seq<u8>) -> Seq<char>
    decreases bytes.len(),
{
    if bytes.len() == 0 {
        Seq::empty()
    } else {
        hex_spec(bytes.drop_last()) + seq![hex_char(bytes.last() as nat / 16), hex_char(bytes.last() as nat % 16)]
    }
}

fn hex_char_exec(d: u8) -> (c: char)
    requires
        d < 16,
    ensures
        c == hex_char(d as nat),
{
    if d == 0 { '0' } else if d == 1 { '1' } else if d == 2 { '2' } else if d == 3 { '3' } else if d == 4 { '4' }
    else if d == 5 { '5' } else if d == 6 { '6' } else if d == 7 { '7' } else if d == 8 { '8' } else if d == 9 { '9' }
    else if d == 10 { 'a' } else if d == 11 { 'b' } else if d == 12 { 'c' } else if d == 13 { 'd' } else if d == 14 { 'e' }
    else { 'f' }
}

/// Lowercase hexadecimal text of `bytes`.
pub fn hex_encode(bytes: &[u8]) -> (s: String)
    ensures
        s@ == hex_spec(bytes@),
{
    let mut out: Vec<char> = Vec::new();
    let mut i: usize = 0;
    assert(bytes@.take(0) =~= Seq::<u8>::empty());
    while i < bytes.len()
        invariant
            i <= bytes@.len(),
            out@ == hex_spec(bytes@.take(i as int)),
        decreases bytes.len() - i,
    {
        let b = bytes[i];
        out.push(hex_char_exec(b / 16));
        out.push(hex_char_exec(b % 16));
        proof {
            assert(bytes@.take(i + 1).drop_last() =~= bytes@.take(i as int));
            assert(bytes@.take(i + 1).last() == b);
        }
        i = i + 1;
        assert(out@ =~= hex_spec(bytes@.take(i as int)));
    }
    assert(bytes@.take(bytes@.len() as int) =~= bytes@);
    string_of(out.as_slice())
}

/// SHA-256 of `data`, hex-encoded.
pub fn sha256_hex(data: &[u8]) -> (s: String)
    ensures
        s@ == hex_spec(sha256_digest(data@)),
{
    let d = sha256_bytes(data);
    hex_encode(d.as_slice())
}

// Sync records

/// A sync record: the modification time given to both sides after a
/// successful sync (seconds and nanoseconds since the Unix epoch), and the
/// SHA-256 hash of the synced content.
#[derive(Debug)]
pub struct SyncTime {
    pub mtime_secs: u64,
    pub mtime_nanos: u32,
    pub sha256: String,
}

/// A point in time in nanoseconds since the Unix epoch.
pub open spec fn nanos_of(secs: u64, nanos: u32) -> int {
    secs as int * 1_000_000_000 + nanos as int
}

impl SyncTime {
    /// The sync time in nanoseconds since the Unix epoch.
    pub fn mtime(&self) -> (t: i128)
        ensures
            t == nanos_of(self.mtime_secs, self.mtime_nanos),
    {
        self.mtime_secs as i128 * 1_000_000_000 + self.mtime_nanos as i128
    }
}

/// The text of a sync time in the state file: `<secs>;<nanos>`.
pub open spec fn sync_line_spec(secs: nat, nanos: nat) -> Seq<char> {
    dec_spec(secs) + seq![';'] + dec_spec(nanos)
}

/// The text of a sync time, see `sync_line_spec`.
pub fn format_sync_time(secs: u64, nanos: u32) -> (s: String)
    ensures
        s@ == sync_line_spec(secs as nat, nanos as nat),
{
    let a = decimal(secs);
    let b = decimal(nanos as u64);
    let head = concat_str(a.as_str(), ";");
    proof {
        reveal_strlit(";");
    }
    concat_str(head.as_str(), b.as_str())
}

/// Where the first `;` of `line` is.
pub open spec fn first_semicolon(line: Seq<char>) -> Option<int> {
    if exists|i: int| 0 <= i < line.len() && line[i] == ';' {
        Some(choose|i: int| 0 <= i < line.len() && line[i] == ';' && forall|j: int| 0 <= j < i ==> line[j] != ';')
    } else {
        None
    }
}

/// What a sync time's text in the state file holds: the seconds before the
/// first `;` and the nanoseconds after it, each as `str::parse` reads it.
pub open spec fn parse_sync_spec(line: Seq<char>) -> Option<(nat, nat)> {
    match first_semicolon(line) {
        None => None,
        Some(i) => match (parse_unsigned_spec(line.take(i), 0xFFFF_FFFF_FFFF_FFFF), parse_unsigned_spec(line.skip(i + 1), 0xFFFF_FFFF)) {
            (Some(s), Some(n)) => Some((s, n)),
            _ => None,
        },
    }
}

/// Read a sync time's text, see `parse_sync_spec`.
pub fn parse_sync_time(line: &str) -> (r: Result<(u64, u32), DfmError>)
    ensures
        match r {
            Ok((s, n)) => parse_sync_spec(line@) == Some((s as nat, n as nat)),
            Err(_) => parse_sync_spec(line@) is None,
        },
{
    let chars = chars_of(line);
    let mut i: usize = 0;
    while i < chars.len() && chars[i] != ';'
        invariant
            i <= chars@.len(),
            forall|j: int| 0 <= j < i ==> chars@[j] != ';',
        decreases chars.len() - i,
    {
        i = i + 1;
    }
    if i == chars.len() {
        return Err(DfmError::Other("expected \"<secs>;<nanos>\"".to_owned()));
    }
    proof {
        let k = choose|k: int| 0 <= k < line@.len() && line@[k] == ';' && forall|j: int| 0 <= j < k ==> line@[j] != ';';
        assert(k == i as int) by {
            if k < i {
            } else if k > i {
            }
        }
    }
    let left = crate::text::slice_to_vec(chars.as_slice(), 0, i);
    let right = crate::text::slice_to_vec(chars.as_slice(), i + 1, chars.len());
    assert(left@ =~= line@.take(i as int));
    assert(right@ =~= line@.skip(i + 1));
    let secs = match parse_unsigned(left.as_slice(), 0xFFFF_FFFF_FFFF_FFFF) {
        Some(v) => v,
        None => return Err(DfmError::Other("invalid seconds in sync time".to_owned())),
    };
    let nanos = match parse_unsigned(right.as_slice(), 0xFFFF_FFFF) {
        Some(v) => v,
        None => return Err(DfmError::Other("invalid nanoseconds in sync time".to_owned())),
    };
    Ok((secs, nanos as u32))
}

/// The text of a sync time reads back as the sync time it was written from.
pub proof fn lemma_sync_line_roundtrip(secs: u64, nanos: u32)
    ensures
        parse_sync_spec(sync_line_spec(secs as nat, nanos as nat)) == Some((secs as nat, nanos as nat)),
{
    let a = dec_spec(secs as nat);
    let b = dec_spec(nanos as nat);
    let line = sync_line_spec(secs as nat, nanos as nat);
    lemma_dec_roundtrip(secs as nat);
    lemma_dec_roundtrip(nanos as nat);
    let k = a.len() as int;
    assert(line[k] == ';');
    assert forall|j: int| 0 <= j < k implies line[j] != ';' by {
        assert(line[j] == a[j]);
        assert(is_digit(a[j]));
    }
    assert(first_semicolon(line) == Some(k)) by {
        let c = choose|i: int| 0 <= i < line.len() && line[i] == ';' && forall|j: int| 0 <= j < i ==> line[j] != ';';
        assert(c == k) by {
            if c < k {
                assert(line[c] != ';');
            } else if c > k {
                assert(line[k] != ';');
            }
        }
    }
    assert(line.take(k) =~= a);
    assert(line.skip(k + 1) =~= b);
    assert(unsigned_digits(a) =~= a) by {
        assert(is_digit(a[0]));
    }
    assert(unsigned_digits(b) =~= b) by {
        assert(is_digit(b[0]));
    }
}

// The state

/// The state: the source and target directories and a sync record per
/// source-relative path, with the keys of the records in the order they were
/// first recorded.
pub struct StateObject {
    pub source_directory: String,
    pub target_directory: String,
    pub syncs: StringHashMap<SyncTime>,
    pub keys: Vec<String>,
}

/// The views of strings.
pub open spec fn keys_view(v: Seq<String>) -> Seq<Seq<char>> {
    v.map_values(|s: String| s@)
}

impl StateObject {
    /// The keys list each record once, and nothing else.
    pub open spec fn wf(&self) -> bool {
        &&& forall|i: int, j: int| 0 <= i < j < self.keys@.len() ==> #[trigger] self.keys@[i]@ != #[trigger] self.keys@[j]@
        &&& forall|k: Seq<char>| #[trigger] self.syncs@.contains_key(k) <==> keys_view(self.keys@).contains(k)
    }

    /// A state for the given directories, with no sync records.
    pub fn new(target_directory: String, source_directory: String) -> (s: StateObject)
        ensures
            s.wf(),
            s.target_directory@ == target_directory@,
            s.source_directory@ == source_directory@,
            s.syncs@ == Map::<Seq<char>, SyncTime>::empty(),
            s.keys@.len() == 0,
    {
        let s = StateObject { source_directory, target_directory, syncs: StringHashMap::new(), keys: Vec::new() };
        assert(keys_view(s.keys@) =~= Seq::<Seq<char>>::empty());
        s
    }
}

/// Drop the record under `key`, from the records and from the key list.
pub fn remove_key(state: &mut StateObject, key: &str)
    requires
        old(state).wf(),
    ensures
        final(state).wf(),
        final(state).syncs@ == old(state).syncs@.remove(key@),
        final(state).source_directory == old(state).source_directory,
        final(state).target_directory == old(state).target_directory,
{
    let ghost old_keys = state.keys@;
    state.syncs.remove(key);
    let kc = chars_of(key);
    let mut i: usize = 0;
    while i < state.keys.len()
        invariant
            i <= state.keys@.len(),
            state.keys@ == old_keys,
            kc@ == key@,
            forall|j: int| 0 <= j < i ==> (#[trigger] state.keys@[j])@ != key@,
        ensures
            i <= state.keys@.len(),
            state.keys@ == old_keys,
            forall|j: int| 0 <= j < i ==> (#[trigger] state.keys@[j])@ != key@,
            i < state.keys@.len() ==> state.keys@[i as int]@ == key@,
        decreases state.keys.len() - i,
    {
        let kj = chars_of(state.keys[i].as_str());
        if crate::text::chars_eq(kj.as_slice(), kc.as_slice()) {
            break;
        }
        i = i + 1;
    }
    if i < state.keys.len() {
        state.keys.remove(i);
        proof {
            let nk = state.keys@;
            assert(nk =~= old_keys.remove(i as int));
            assert forall|a: int, b: int| 0 <= a < b < nk.len() implies #[trigger] nk[a]@ != #[trigger] nk[b]@ by {
                let oa = if a < i { a } else { a + 1 };
                let ob = if b < i { b } else { b + 1 };
                assert(nk[a] == old_keys[oa]);
                assert(nk[b] == old_keys[ob]);
            }
            assert forall|k: Seq<char>| #[trigger] state.syncs@.contains_key(k) <==> keys_view(nk).contains(k) by {
                if keys_view(nk).contains(k) {
                    let x = choose|x: int| 0 <= x < keys_view(nk).len() && keys_view(nk)[x] == k;
                    let ox = if x < i { x } else { x + 1 };
                    assert(nk[x] == old_keys[ox]);
                    assert(keys_view(old_keys)[ox] == k);
                    assert(ox != i);
                    if ox < i {
                        assert(old_keys[ox]@ != old_keys[i as int]@);
                    } else {
                        assert(old_keys[i as int]@ != old_keys[ox]@);
                    }
                    assert(k != key@);
                }
                if state.syncs@.contains_key(k) {
                    assert(keys_view(old_keys).contains(k));
                    let x = choose|x: int| 0 <= x < keys_view(old_keys).len() && keys_view(old_keys)[x] == k;
                    assert(x != i);
                    let nx = if x < i { x } else { x - 1 };
                    assert(nk[nx] == old_keys[x]);
                    assert(keys_view(nk)[nx] == k);
                }
            }
        }
    } else {
        proof {
            assert forall|k: Seq<char>| #[trigger] state.syncs@.contains_key(k) <==> keys_view(state.keys@).contains(k) by {
                if keys_view(state.keys@).contains(k) {
                    let x = choose|x: int| 0 <= x < keys_view(state.keys@).len() && keys_view(state.keys@)[x] == k;
                    assert(state.keys@[x]@ != key@);
                }
            }
        }
    }
}

/// The sync record of a file, by the state key of its absolute path under the
/// source directory.
pub fn get_sync_time<'a>(state: &'a StateObject, path: &str, source_dir: &str) -> (r: Option<&'a SyncTime>)
    ensures
        match r {
            Some(t) => state.syncs@.contains_key(state_key_spec(path@, source_dir@))
                && *t == state.syncs@[state_key_spec(path@, source_dir@)],
            None => !state.syncs@.contains_key(state_key_spec(path@, source_dir@)),
        },
{
    let key = state_key_for(path, source_dir);
    state.syncs.get(key.as_str())
}

/// Drop the sync record of a file, by the state key of its absolute path
/// under the source directory.
pub fn remove_sync_state(state: &mut StateObject, path: &str, source_dir: &str)
    requires
        old(state).wf(),
    ensures
        final(state).wf(),
        final(state).syncs@ == old(state).syncs@.remove(state_key_spec(path@, source_dir@)),
        final(state).source_directory == old(state).source_directory,
        final(state).target_directory == old(state).target_directory,
{
    let key = state_key_for(path, source_dir);
    remove_key(state, key.as_str());
}

/// Record a sync under a state key; a new key goes to the end of the key
/// list.
pub fn insert_sync(state: &mut StateObject, key: String, sync: SyncTime)
    requires
        old(state).wf(),
    ensures
        final(state).wf(),
        final(state).syncs@ == old(state).syncs@.insert(key@, sync),
        keys_view(final(state).keys@) == if old(state).syncs@.contains_key(key@) {
            keys_view(old(state).keys@)
        } else {
            keys_view(old(state).keys@).push(key@)
        },
        final(state).source_directory == old(state).source_directory,
        final(state).target_directory == old(state).target_directory,
{
    let ghost old_keys = state.keys@;
    let fresh = !state.syncs.contains_key(key.as_str());
    if fresh {
        state.keys.push(key.clone());
    }
    state.syncs.insert(key, sync);
    proof {
        let nk = state.keys@;
        if fresh {
            assert(keys_view(nk) =~= keys_view(old_keys).push(key@));
            assert forall|a: int, b: int| 0 <= a < b < nk.len() implies #[trigger] nk[a]@ != #[trigger] nk[b]@ by {
                if b == nk.len() - 1 {
                    assert(keys_view(old_keys)[a] == nk[a]@);
                    assert(keys_view(old_keys).contains(nk[a]@));
                } else {
                    assert(nk[a] == old_keys[a]);
                    assert(nk[b] == old_keys[b]);
                }
            }
            assert forall|k: Seq<char>| #[trigger] state.syncs@.contains_key(k) <==> keys_view(nk).contains(k) by {
                if keys_view(old_keys).contains(k) {
                    let x = choose|x: int| 0 <= x < keys_view(old_keys).len() && keys_view(old_keys)[x] == k;
                    assert(keys_view(nk)[x] == k);
                }
                if k == key@ {
                    assert(keys_view(nk)[nk.len() - 1] == k);
                }
                if keys_view(nk).contains(k) && k != key@ {
                    let x = choose|x: int| 0 <= x < keys_view(nk).len() && keys_view(nk)[x] == k;
                    assert(x < old_keys.len());
                    assert(keys_view(old_keys)[x] == k);
                }
            }
        } else {
            assert(nk == old_keys);
        }
    }
}

/// The state key under which a source-relative path is recorded: the path
/// itself, or else with the encrypted postfix, or else with the symlink
/// postfix.
pub open spec fn resolve_state_key_spec(syncs: Map<Seq<char>, SyncTime>, base_rel: Seq<char>, encrypted_postfix: Seq<char>, symlink_postfix: Seq<char>) -> Option<Seq<char>> {
    if syncs.contains_key(base_rel) {
        Some(base_rel)
    } else if syncs.contains_key(base_rel + encrypted_postfix) {
        Some(base_rel + encrypted_postfix)
    } else if syncs.contains_key(base_rel + symlink_postfix) {
        Some(base_rel + symlink_postfix)
    } else {
        None
    }
}

/// See `resolve_state_key_spec`.
pub fn resolve_state_key(state: &StateObject, base_rel: &str, encrypted_postfix: &str, symlink_postfix: &str) -> (r: Option<String>)
    ensures
        match r {
            Some(k) => resolve_state_key_spec(state.syncs@, base_rel@, encrypted_postfix@, symlink_postfix@) == Some(k@),
            None => resolve_state_key_spec(state.syncs@, base_rel@, encrypted_postfix@, symlink_postfix@) is None,
        },
{
    if state.syncs.contains_key(base_rel) {
        return Some(base_rel.to_owned());
    }
    let enc = concat_str(base_rel, encrypted_postfix);
    if state.syncs.contains_key(enc.as_str()) {
        return Some(enc);
    }
    let sym = concat_str(base_rel, symlink_postfix);
    if state.syncs.contains_key(sym.as_str()) {
        return Some(sym);
    }
    None
}

/// The state key a path given to `merge` stands for: a path in the source
/// directory stands for its own key, when the state records it; a path in
/// the target directory for the key of its source path, see
/// `resolve_state_key_spec`.
pub open spec fn merge_key_spec(syncs: Map<Seq<char>, SyncTime>, in_source_dir: bool, rel: Seq<char>, encrypted_postfix: Seq<char>, symlink_postfix: Seq<char>) -> Option<Seq<char>> {
    if in_source_dir {
        if syncs.contains_key(rel) { Some(rel) } else { None }
    } else {
        resolve_state_key_spec(syncs, rel, encrypted_postfix, symlink_postfix)
    }
}

/// See `merge_key_spec`; `rel` is the source-relative path of the given
/// path, or of the source path of a target path.
pub fn merge_key(state: &StateObject, in_source_dir: bool, rel: &str, encrypted_postfix: &str, symlink_postfix: &str) -> (r: Option<String>)
    ensures
        match r {
            Some(k) => merge_key_spec(state.syncs@, in_source_dir, rel@, encrypted_postfix@, symlink_postfix@) == Some(k@),
            None => merge_key_spec(state.syncs@, in_source_dir, rel@, encrypted_postfix@, symlink_postfix@) is None,
        },
{
    if in_source_dir {
        if state.syncs.contains_key(rel) { Some(rel.to_owned()) } else { None }
    } else {
        resolve_state_key(state, rel, encrypted_postfix, symlink_postfix)
    }
}

// Conflict detection

/// How a target file and its source copy relate to their last sync.
#[derive(Debug, Clone, Copy, PartialEq, Eq, Structural)]
pub enum CompareByTimestamp {
    TargetModified,
    SourceModified,
    BothModified,
    NonModified,
    NeverSynchronized,
}

/// The comparison of the target's and the source's modification times with
/// the sync time: both modified when the target is newer and the source too;
/// otherwise the source modified when the target equals the sync time and the
/// source is newer, or the target is older than the source; otherwise neither
/// when all three are equal; otherwise the target modified when it is newer
/// than the sync time and the source equals it, or it is newer than the
/// source; `None` for what is left (the times are inconsistent).
pub open spec fn compare_times_spec(target: int, source: int, synced: int) -> Option<CompareByTimestamp> {
    let both_not_modified = target == synced && synced == source;
    let only_source_modified = (target == synced && synced < source) || target < source;
    let only_target_modified = (target > synced && synced == source) || target > source;
    let both_modified = target > synced && synced < source;
    if both_modified {
        Some(CompareByTimestamp::BothModified)
    } else if only_source_modified {
        Some(CompareByTimestamp::SourceModified)
    } else if both_not_modified {
        Some(CompareByTimestamp::NonModified)
    } else if only_target_modified {
        Some(CompareByTimestamp::TargetModified)
    } else {
        None
    }
}

/// The error of modification times that fit no case of `compare_times_spec`.
pub open spec fn inconsistent_times_message() -> Seq<char> {
    "the timestamps of the files under comparison are in inconsistent state"@
}

/// Compare by modification times (nanoseconds since the Unix epoch), see
/// `compare_times_spec`; never synchronized without a sync time; the error
/// `inconsistent_times_message` for inconsistent times.
pub fn compare_files_by_timestamps(target_modified: i128, source_modified: i128, sync_time_opt: Option<i128>) -> (r: Result<CompareByTimestamp, DfmError>)
    ensures
        match sync_time_opt {
            None => r == Ok::<CompareByTimestamp, DfmError>(CompareByTimestamp::NeverSynchronized),
            Some(y) => match compare_times_spec(target_modified as int, source_modified as int, y as int) {
                Some(c) => r == Ok::<CompareByTimestamp, DfmError>(c),
                None => r matches Err(DfmError::Other(m)) && m@ == inconsistent_times_message(),
            },
        },
        sync_time_opt matches Some(y) ==> {
            &&& target_modified == y && y == source_modified ==> r == Ok::<CompareByTimestamp, DfmError>(CompareByTimestamp::NonModified)
            &&& target_modified == y && y < source_modified ==> r == Ok::<CompareByTimestamp, DfmError>(CompareByTimestamp::SourceModified)
            &&& target_modified > y && y == source_modified ==> r == Ok::<CompareByTimestamp, DfmError>(CompareByTimestamp::TargetModified)
            &&& target_modified > y && y < source_modified ==> r == Ok::<CompareByTimestamp, DfmError>(CompareByTimestamp::BothModified)
        },
{
    let synced = match sync_time_opt {
        Some(t) => t,
        None => return Ok(CompareByTimestamp::NeverSynchronized),
    };
    let t = target_modified;
    let s = source_modified;
    let both_not_modified = t == synced && synced == s;
    let only_source_modified = (t == synced && synced < s) || t < s;
    let only_target_modified = (t > synced && synced == s) || t > s;
    let both_modified = t > synced && synced < s;
    if both_modified {
        return Ok(CompareByTimestamp::BothModified);
    }
    if only_source_modified {
        return Ok(CompareByTimestamp::SourceModified);
    }
    if both_not_modified {
        return Ok(CompareByTimestamp::NonModified);
    }
    if only_target_modified {
        return Ok(CompareByTimestamp::TargetModified);
    }
    Err(DfmError::other("the timestamps of the files under comparison are in inconsistent state"))
}

/// The conflict table: equal times mean no change; a newer source with the
/// target at the sync time means the source changed; a newer target with the
/// source at the sync time means the target changed; both newer than the sync
/// time means both changed.
pub proof fn lemma_conflict_table(target: int, source: int, synced: int)
    ensures
        target == synced && synced == source ==> compare_times_spec(target, source, synced) == Some(CompareByTimestamp::NonModified),
        target == synced && synced < source ==> compare_times_spec(target, source, synced) == Some(CompareByTimestamp::SourceModified),
        target > synced && synced == source ==> compare_times_spec(target, source, synced) == Some(CompareByTimestamp::TargetModified),
        target > synced && synced < source ==> compare_times_spec(target, source, synced) == Some(CompareByTimestamp::BothModified),
{
}

/// Compare by content: a side is modified when its current hash differs from
/// the hash recorded at the last sync.
pub open spec fn compare_content_spec(target_hash: Seq<char>, source_hash: Seq<char>, sync_hash: Seq<char>) -> CompareByTimestamp {
    let t = target_hash != sync_hash;
    let s = source_hash != sync_hash;
    if t && s {
        CompareByTimestamp::BothModified
    } else if t {
        CompareByTimestamp::TargetModified
    } else if s {
        CompareByTimestamp::SourceModified
    } else {
        CompareByTimestamp::NonModified
    }
}

/// Content comparison marks a side as changed exactly when its hash differs
/// from the one recorded at the last sync.
pub proof fn law_content_changes_follow_hashes(target_hash: Seq<char>, source_hash: Seq<char>, sync_hash: Seq<char>)
    ensures
        crate::tasks::target_changed(compare_content_spec(target_hash, source_hash, sync_hash)) <==> target_hash != sync_hash,
        crate::tasks::source_changed(compare_content_spec(target_hash, source_hash, sync_hash)) <==> source_hash != sync_hash,
        !(compare_content_spec(target_hash, source_hash, sync_hash) is NeverSynchronized),
{
}

/// Content-based conflict detection from the current hashes of the target
/// and the source, see `compare_content_spec`; never synchronized without a
/// sync record.
pub fn compare_files_by_content(target_sha256: &str, source_sha256: &str, sync_time_opt: Option<&SyncTime>) -> (r: CompareByTimestamp)
    ensures
        match sync_time_opt {
            None => r == CompareByTimestamp::NeverSynchronized,
            Some(sync) => r == compare_content_spec(target_sha256@, source_sha256@, sync.sha256@),
        },
        sync_time_opt matches Some(sync) ==> (crate::tasks::target_changed(r) <==> target_sha256@ != sync.sha256@)
            && (crate::tasks::source_changed(r) <==> source_sha256@ != sync.sha256@) && !(r is NeverSynchronized),
{
    let sync = match sync_time_opt {
        Some(s) => s,
        None => return CompareByTimestamp::NeverSynchronized,
    };
    let t = chars_of(target_sha256);
    let s = chars_of(source_sha256);
    let h = chars_of(sync.sha256.as_str());
    let target_modified = !crate::text::chars_eq(t.as_slice(), h.as_slice());
    let source_modified = !crate::text::chars_eq(s.as_slice(), h.as_slice());
    if target_modified && source_modified {
        CompareByTimestamp::BothModified
    } else if target_modified {
        CompareByTimestamp::TargetModified
    } else if source_modified {
        CompareByTimestamp::SourceModified
    } else {
        CompareByTimestamp::NonModified
    }
}

/// What is known of a target file and its source copy: their modification
/// times (nanoseconds since the Unix epoch) and the SHA-256 hashes of their
/// contents. Only the pair that `compare_files` uses for the source's kind
/// needs to be filled in.
pub struct FileStamps {
    pub target_modified: i128,
    pub source_modified: i128,
    pub target_sha256: String,
    pub source_sha256: String,
}

/// Whether a source is compared by modification times: an encrypted one is
/// (re-encryption changes its bytes), a plain one is compared by content.
pub open spec fn compares_by_time(encrypted_postfix: Seq<char>, source_abs_path: Seq<char>) -> bool {
    has_suffix(source_abs_path, encrypted_postfix)
}

/// See `compares_by_time`.
pub fn compares_by_timestamps(encrypted_postfix: &str, source_abs_path: &str) -> (b: bool)
    ensures
        b == compares_by_time(encrypted_postfix@, source_abs_path@),
{
    ends_with(chars_of(source_abs_path).as_slice(), chars_of(encrypted_postfix).as_slice())
}

/// Conflict detection that dispatches on the source's kind: encrypted
/// sources by modification time, plain ones by content.
pub fn compare_files(encrypted_postfix: &str, source_abs_path: &str, sync_time_opt: Option<&SyncTime>, stamps: &FileStamps) -> (r: Result<CompareByTimestamp, DfmError>)
    ensures
        compares_by_time(encrypted_postfix@, source_abs_path@) ==> match sync_time_opt {
            None => r == Ok::<CompareByTimestamp, DfmError>(CompareByTimestamp::NeverSynchronized),
            Some(sync) => match compare_times_spec(stamps.target_modified as int, stamps.source_modified as int, nanos_of(sync.mtime_secs, sync.mtime_nanos)) {
                Some(c) => r == Ok::<CompareByTimestamp, DfmError>(c),
                None => r matches Err(DfmError::Other(m)) && m@ == inconsistent_times_message(),
            },
        },
        !compares_by_time(encrypted_postfix@, source_abs_path@) ==> match sync_time_opt {
            None => r == Ok::<CompareByTimestamp, DfmError>(CompareByTimestamp::NeverSynchronized),
            Some(sync) => r == Ok::<CompareByTimestamp, DfmError>(compare_content_spec(stamps.target_sha256@, stamps.source_sha256@, sync.sha256@)),
        },
{
    if compares_by_timestamps(encrypted_postfix, source_abs_path) {
        let synced = match sync_time_opt {
            Some(s) => Some(s.mtime()),
            None => None,
        };
        compare_files_by_timestamps(stamps.target_modified, stamps.source_modified, synced)
    } else {
        Ok(compare_files_by_content(stamps.target_sha256.as_str(), stamps.source_sha256.as_str(), sync_time_opt))
    }
}

} // verus!
