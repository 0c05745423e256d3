//! Dense index metadata: entries, the file-signature manifest, and the
//! decisions an incremental rebuild takes on them.
use vstd::prelude::*;
use vstd::string::StringSliceAdditionalSpecFns;
use crate::search::ints;
use crate::text::{chars_of, chars_equal};

verus! {

/// Embedding dimension of the model the index is built with.
pub const DIM: usize = 384;

/// Metadata of one indexed chunk.
#[derive(Debug, Clone)]
pub struct EntryMeta {
    pub session_id: String,
    pub project: String,
    pub offset: usize,
    pub timestamp: String,
    /// FNV-1a of the chunk text, for chunk-level vector reuse across builds.
    /// 0 = unknown (entry written by an older build): never matches, so the
    /// chunk re-embeds once and gains a hash.
    pub hash: u64,
}

/// FNV-1a 64-bit offset basis.
pub const FNV_OFFSET: u64 = 0xcbf29ce484222325;

/// FNV-1a 64-bit prime.
pub const FNV_PRIME: u64 = 0x100000001b3;

/// FNV-1a over a byte sequence.
pub open spec fn spec_fnv1a(bytes: Seq<u8>) -> u64
    decreases bytes.len(),
{
    if bytes.len() == 0 {
        FNV_OFFSET
    } else {
        (spec_fnv1a(bytes.drop_last()) ^ (bytes.last() as u64)).wrapping_mul(FNV_PRIME)
    }
}

/// The chunk hash of a text: FNV-1a of its UTF-8 bytes, with 0 (reserved
/// for "no hash") remapped to 1.
pub open spec fn spec_chunk_hash(text: &str) -> u64 {
    let h = spec_fnv1a(text.spec_bytes());
    if h == 0 { 1 } else { h }
}

/// Stable FNV-1a over chunk text. Deterministic across runs and versions.
/// Remapped so 0 stays reserved for "no hash".
pub fn chunk_hash(text: &str) -> (h: u64)
    ensures
        h == spec_chunk_hash(text),
        h != 0,
{
    let bytes = text.as_bytes();
    let mut h: u64 = FNV_OFFSET;
    let mut i: usize = 0;
    while i < bytes.len()
        invariant
            i <= bytes@.len(),
            bytes@ == text.spec_bytes(),
            h == spec_fnv1a(bytes@.take(i as int)),
        decreases bytes@.len() - i,
    {
        assert(bytes@.take(i + 1).drop_last() =~= bytes@.take(i as int));
        h ^= bytes[i] as u64;
        h = h.wrapping_mul(FNV_PRIME);
        i += 1;
    }
    assert(bytes@.take(bytes@.len() as int) =~= bytes@);
    if h == 0 {
        1
    } else {
        h
    }
}

/// Whether a vector file of `vector_bytes` bytes (read as 4-byte floats,
/// a trailing partial float ignored) holds exactly `DIM` floats for each of
/// `entry_count` entries. A misaligned pair must be treated as no index.
pub fn vectors_match_entries(vector_bytes: usize, entry_count: usize) -> (r: bool)
    ensures
        r == (vector_bytes as int / 4 == entry_count as int * DIM as int),
{
    match entry_count.checked_mul(DIM) {
        Some(n) => vector_bytes / 4 == n,
        None => false,
    }
}

/// Index of the first file in `files` (from `i` on) named `key`.
pub open spec fn spec_file_from(files: Seq<(String, (u64, u64))>, key: Seq<char>, i: int) -> Option<int>
    decreases files.len() - i,
{
    if i < 0 || i >= files.len() {
        None
    } else if files[i].0@ == key {
        Some(i)
    } else {
        spec_file_from(files, key, i + 1)
    }
}

/// The signature recorded for `key` in `files`.
pub open spec fn spec_sig_of(files: Seq<(String, (u64, u64))>, key: Seq<char>) -> Option<(u64, u64)> {
    match spec_file_from(files, key, 0) {
        Some(i) => Some(files[i].1),
        None => None,
    }
}

/// File signatures, `(mtime_secs, len)` per transcript path, one record per path.
#[derive(Debug, Clone)]
pub struct Manifest {
    pub files: Vec<(String, (u64, u64))>,
}

proof fn lemma_file_from_found(files: Seq<(String, (u64, u64))>, key: Seq<char>, i: int, j: int)
    requires
        0 <= i <= j < files.len(),
        files[j].0@ == key,
        forall|k: int| i <= k < j ==> (#[trigger] files[k]).0@ != key,
    ensures
        spec_file_from(files, key, i) == Some(j),
    decreases j - i,
{
    if i < j {
        lemma_file_from_found(files, key, i + 1, j);
    }
}

proof fn lemma_file_from_absent(files: Seq<(String, (u64, u64))>, key: Seq<char>, i: int)
    requires
        0 <= i,
        forall|k: int| i <= k < files.len() ==> (#[trigger] files[k]).0@ != key,
    ensures
        spec_file_from(files, key, i) is None,
    decreases files.len() - i,
{
    if i < files.len() {
        lemma_file_from_absent(files, key, i + 1);
    }
}

impl Manifest {
    /// Each path occurs at most once.
    pub open spec fn wf(&self) -> bool {
        forall|i: int, j: int| 0 <= i < j < self.files@.len() ==> self.files@[i].0@ != self.files@[j].0@
    }

    /// The signature recorded for a path.
    pub open spec fn sig(&self, key: Seq<char>) -> Option<(u64, u64)> {
        spec_sig_of(self.files@, key)
    }

    /// An empty manifest.
    pub fn new() -> (m: Self)
        ensures
            m.wf(),
            forall|k: Seq<char>| m.sig(k) is None,
    {
        Manifest { files: Vec::new() }
    }

    fn position(&self, key: &str) -> (r: Option<usize>)
        ensures
            r matches Some(i) ==> i < self.files@.len() && spec_file_from(self.files@, key@, 0) == Some(i as int),
            r is None ==> spec_file_from(self.files@, key@, 0) is None,
    {
        let k = chars_of(key);
        let mut i: usize = 0;
        while i < self.files.len()
            invariant
                i <= self.files@.len(),
                k@ == key@,
                forall|j: int| 0 <= j < i ==> (#[trigger] self.files@[j]).0@ != key@,
            decreases self.files@.len() - i,
        {
            let name = chars_of(self.files[i].0.as_str());
            if chars_equal(&name, &k) {
                proof {
                    lemma_file_from_found(self.files@, key@, 0, i as int);
                }
                return Some(i);
            }
            i += 1;
        }
        proof {
            lemma_file_from_absent(self.files@, key@, 0);
        }
        None
    }

    /// The signature recorded for `key`.
    pub fn get(&self, key: &str) -> (r: Option<(u64, u64)>)
        ensures
            r == self.sig(key@),
    {
        match self.position(key) {
            Some(i) => Some(self.files[i].1),
            None => None,
        }
    }

    /// Record `sig` for `key`, replacing any earlier record.
    pub fn insert(&mut self, key: &str, sig: (u64, u64))
        requires
            old(self).wf(),
        ensures
            final(self).wf(),
            final(self).sig(key@) == Some(sig),
            forall|k: Seq<char>| k != key@ ==> #[trigger] final(self).sig(k) == old(self).sig(k),
    {
        let ghost before = self.files@;
        match self.position(key) {
            Some(i) => {
                proof {
                    lemma_file_from_found_any(before, key@, i as int);
                }
                let name = self.files[i].0.clone();
                self.files.set(i, (name, sig));
                assert(forall|q: int| 0 <= q < before.len() ==> (#[trigger] self.files@[q]).0@ == before[q].0@);
                assert(forall|q: int| 0 <= q < before.len() && q != i ==> #[trigger] self.files@[q] == before[q]);
                assert forall|k: Seq<char>| k != key@ implies #[trigger] self.sig(k) == spec_sig_of(before, k) by {
                    match spec_file_from(before, k, 0) {
                        Some(j) => {
                            lemma_file_from_found_any(before, k, j);
                            assert(forall|q: int| 0 <= q < j ==> (#[trigger] self.files@[q]).0@ == before[q].0@);
                            lemma_file_from_found(self.files@, k, 0, j);
                        },
                        None => {
                            lemma_file_from_absent_any(before, k);
                            lemma_file_from_absent(self.files@, k, 0);
                        },
                    }
                }
                proof {
                    lemma_file_from_found_any(before, key@, i as int);
                    lemma_file_from_found(self.files@, key@, 0, i as int);
                }
            },
            None => {
                let mut name = String::new();
                crate::text::push_str(&mut name, key);
                self.files.push((name, sig));
                proof {
                    lemma_file_from_absent_any(before, key@);
                    lemma_file_from_found(self.files@, key@, 0, before.len() as int);
                    assert forall|k: Seq<char>| k != key@ implies #[trigger] self.sig(k) == spec_sig_of(before, k) by {
                        match spec_file_from(before, k, 0) {
                            Some(j) => {
                                lemma_file_from_found_any(before, k, j);
                                lemma_file_from_found(self.files@, k, 0, j);
                            },
                            None => {
                                lemma_file_from_absent_any(before, k);
                                lemma_file_from_absent(self.files@, k, 0);
                            },
                        }
                    }
                }
            },
        }
    }
}

proof fn lemma_file_from_found_any(files: Seq<(String, (u64, u64))>, key: Seq<char>, j: int)
    requires
        spec_file_from(files, key, 0) == Some(j),
    ensures
        0 <= j < files.len(),
        files[j].0@ == key,
        forall|k: int| 0 <= k < j ==> (#[trigger] files[k]).0@ != key,
{
    lemma_file_from_found_from(files, key, 0, j);
}

proof fn lemma_file_from_found_from(files: Seq<(String, (u64, u64))>, key: Seq<char>, i: int, j: int)
    requires
        0 <= i,
        spec_file_from(files, key, i) == Some(j),
    ensures
        i <= j < files.len(),
        files[j].0@ == key,
        forall|k: int| i <= k < j ==> (#[trigger] files[k]).0@ != key,
    decreases files.len() - i,
{
    if i < files.len() && files[i].0@ != key {
        lemma_file_from_found_from(files, key, i + 1, j);
    }
}

proof fn lemma_file_from_absent_any(files: Seq<(String, (u64, u64))>, key: Seq<char>)
    requires
        spec_file_from(files, key, 0) is None,
    ensures
        forall|k: int| 0 <= k < files.len() ==> (#[trigger] files[k]).0@ != key,
{
    lemma_file_from_absent_from(files, key, 0);
}

proof fn lemma_file_from_absent_from(files: Seq<(String, (u64, u64))>, key: Seq<char>, i: int)
    requires
        0 <= i,
        spec_file_from(files, key, i) is None,
    ensures
        forall|k: int| i <= k < files.len() ==> (#[trigger] files[k]).0@ != key,
    decreases files.len() - i,
{
    if i < files.len() {
        lemma_file_from_absent_from(files, key, i + 1);
    }
}


proof fn lemma_sig_take_step(s: Seq<(String, (u64, u64))>, i: int, k: Seq<char>)
    requires
        0 <= i < s.len(),
        forall|a: int, b: int| 0 <= a < b < s.len() ==> s[a].0@ != s[b].0@,
    ensures
        spec_sig_of(s.take(i + 1), k) == if s[i].0@ == k { Some(s[i].1) } else { spec_sig_of(s.take(i), k) },
{
    let t = s.take(i);
    let t1 = s.take(i + 1);
    assert(forall|q: int| 0 <= q < i ==> #[trigger] t1[q] == t[q]);
    if s[i].0@ == k {
        assert(forall|q: int| 0 <= q < i ==> (#[trigger] t1[q]).0@ != k);
        lemma_file_from_found(t1, k, 0, i);
    } else {
        match spec_file_from(t, k, 0) {
            Some(j) => {
                lemma_file_from_found_any(t, k, j);
                lemma_file_from_found(t1, k, 0, j);
            },
            None => {
                lemma_file_from_absent_any(t, k);
                lemma_file_from_absent(t1, k, 0);
            },
        }
    }
}

impl Manifest {
    /// The manifest saved with a checkpoint: the records of `old` for paths
    /// this build has not reached, the records of `fresh` for the rest.
    pub fn merged_with(old: &Manifest, fresh: &Manifest) -> (m: Manifest)
        requires
            old.wf(),
            fresh.wf(),
        ensures
            m.wf(),
            forall|k: Seq<char>| #[trigger] m.sig(k) == match fresh.sig(k) {
                Some(v) => Some(v),
                None => old.sig(k),
            },
    {
        let mut m = Manifest::new();
        let mut i: usize = 0;
        while i < old.files.len()
            invariant
                i <= old.files@.len(),
                old.wf(),
                m.wf(),
                forall|k: Seq<char>| #[trigger] m.sig(k) == spec_sig_of(old.files@.take(i as int), k),
            decreases old.files@.len() - i,
        {
            m.insert(old.files[i].0.as_str(), old.files[i].1);
            proof {
                assert forall|k: Seq<char>| #[trigger] m.sig(k) == spec_sig_of(old.files@.take(i + 1), k) by {
                    lemma_sig_take_step(old.files@, i as int, k);
                }
            }
            i += 1;
        }
        assert(old.files@.take(old.files@.len() as int) =~= old.files@);
        let mut j: usize = 0;
        while j < fresh.files.len()
            invariant
                j <= fresh.files@.len(),
                fresh.wf(),
                m.wf(),
                forall|k: Seq<char>| #[trigger] m.sig(k) == match spec_sig_of(fresh.files@.take(j as int), k) {
                    Some(v) => Some(v),
                    None => old.sig(k),
                },
            decreases fresh.files@.len() - j,
        {
            m.insert(fresh.files[j].0.as_str(), fresh.files[j].1);
            proof {
                assert forall|k: Seq<char>| #[trigger] m.sig(k) == match spec_sig_of(fresh.files@.take(j + 1), k) {
                    Some(v) => Some(v),
                    None => old.sig(k),
                } by {
                    lemma_sig_take_step(fresh.files@, j as int, k);
                }
            }
            j += 1;
        }
        assert(fresh.files@.take(fresh.files@.len() as int) =~= fresh.files@);
        m
    }
}

/// Whether a session can be reused verbatim: it was indexed before and
/// every one of its files still has the signature the old manifest recorded.
pub open spec fn spec_session_unchanged(indexed_before: bool, old: Manifest, files: Seq<(String, (u64, u64))>) -> bool {
    indexed_before && forall|f: int| 0 <= f < files.len() ==> old.sig(#[trigger] files[f].0@) == Some(files[f].1)
}

/// Reuse decision for one session of a rebuild (see [`spec_session_unchanged`]).
pub fn session_unchanged(indexed_before: bool, old: &Manifest, files: &Vec<(String, (u64, u64))>) -> (r: bool)
    ensures
        r == spec_session_unchanged(indexed_before, *old, files@),
{
    let mut unchanged = indexed_before;
    let mut f: usize = 0;
    while f < files.len()
        invariant
            f <= files@.len(),
            unchanged == (indexed_before && forall|q: int| 0 <= q < f ==> old.sig(#[trigger] files@[q].0@) == Some(files@[q].1)),
        decreases files@.len() - f,
    {
        let recorded = old.get(files[f].0.as_str());
        let same = match recorded {
            Some(sig) => sig.0 == files[f].1.0 && sig.1 == files[f].1.1,
            None => false,
        };
        if !same {
            unchanged = false;
        }
        f += 1;
    }
    unchanged
}

/// Reuse across builds: a session whose files keep the signatures a build
/// recorded for them is reused verbatim by the next build, whether that
/// build saved its manifest directly or as a checkpoint merged with older
/// records (see [`Manifest::merged_with`]).
pub proof fn lemma_recorded_session_reused(
    old: Manifest,
    fresh: Manifest,
    merged: Manifest,
    files: Seq<(String, (u64, u64))>,
)
    requires
        forall|f: int| 0 <= f < files.len() ==> fresh.sig(#[trigger] files[f].0@) == Some(files[f].1),
        forall|k: Seq<char>| #[trigger] merged.sig(k) == match fresh.sig(k) {
            Some(v) => Some(v),
            None => old.sig(k),
        },
    ensures
        spec_session_unchanged(true, fresh, files),
        spec_session_unchanged(true, merged, files),
{
    assert forall|f: int| 0 <= f < files.len() implies merged.sig(#[trigger] files[f].0@) == Some(files[f].1) by {
        assert(fresh.sig(files[f].0@) == Some(files[f].1));
    }
}

/// The first old entry whose (known, non-zero) hash equals `h`.
pub open spec fn spec_reusable(old_hashes: Seq<u64>, h: u64) -> Option<int> {
    if exists|j: int| 0 <= j < old_hashes.len() && old_hashes[j] != 0 && old_hashes[j] == h {
        Some(choose|j: int| 0 <= j < old_hashes.len() && old_hashes[j] != 0 && old_hashes[j] == h
            && forall|q: int| 0 <= q < j ==> old_hashes[q] != h)
    } else {
        None
    }
}

/// The view of a reuse plan.
pub open spec fn plan_view(p: Seq<Option<usize>>) -> Seq<Option<int>> {
    p.map_values(|o: Option<usize>| match o {
        Some(j) => Some(j as int),
        None => None,
    })
}

proof fn lemma_first_hash(old_hashes: Seq<u64>, h: u64, k: int) -> (j: int)
    requires
        0 <= k < old_hashes.len(),
        old_hashes[k] == h,
    ensures
        0 <= j <= k,
        old_hashes[j] == h,
        forall|q: int| 0 <= q < j ==> old_hashes[q] != h,
    decreases k,
{
    if exists|q: int| 0 <= q < k && #[trigger] old_hashes[q] == h {
        let q = choose|q: int| 0 <= q < k && #[trigger] old_hashes[q] == h;
        lemma_first_hash(old_hashes, h, q)
    } else {
        k
    }
}

proof fn lemma_reusable_found(old_hashes: Seq<u64>, h: u64, k: int)
    requires
        0 <= k < old_hashes.len(),
        old_hashes[k] == h,
        h != 0,
    ensures
        spec_reusable(old_hashes, h) matches Some(j) && 0 <= j <= k && old_hashes[j] == h,
{
    let w = lemma_first_hash(old_hashes, h, k);
    assert(old_hashes[w] != 0 && old_hashes[w] == h);
    let j = spec_reusable(old_hashes, h)->0;
    assert(old_hashes[j] == h && forall|q: int| 0 <= q < j ==> old_hashes[q] != h);
    if j > w {
        assert(old_hashes[w] != h);
    }
    if j < w {
        assert(old_hashes[j] != h);
    }
}

proof fn lemma_chunk_hash_nonzero(text: &str)
    ensures
        spec_chunk_hash(text) != 0,
{
}

/// Chunk reuse across builds: a window whose text an earlier build of the
/// session embedded (its hash is among the session's old entries) keeps an
/// old vector recorded under that same hash, the first such one.
pub proof fn lemma_unchanged_chunk_reused(old_hashes: Seq<u64>, text: &str, k: int)
    requires
        0 <= k < old_hashes.len(),
        old_hashes[k] == spec_chunk_hash(text),
    ensures
        spec_reusable(old_hashes, spec_chunk_hash(text)) matches Some(j)
            && 0 <= j <= k && old_hashes[j] == spec_chunk_hash(text),
{
    lemma_chunk_hash_nonzero(text);
    lemma_reusable_found(old_hashes, spec_chunk_hash(text), k);
}

/// Chunk-level reuse within a changed session: for each new chunk, the old
/// entry (of the same session) whose vector it can keep — the first one
/// with the same non-zero text hash — or `None` when it must be embedded.
pub fn plan_chunk_reuse(old_hashes: &Vec<u64>, new_hashes: &Vec<u64>) -> (r: Vec<Option<usize>>)
    ensures
        r@.len() == new_hashes@.len(),
        forall|k: int| 0 <= k < r@.len() ==> #[trigger] plan_view(r@)[k] == spec_reusable(old_hashes@, new_hashes@[k]),
{
    let mut plan: Vec<Option<usize>> = Vec::new();
    let mut k: usize = 0;
    while k < new_hashes.len()
        invariant
            k <= new_hashes@.len(),
            plan@.len() == k,
            forall|q: int| 0 <= q < k ==> #[trigger] plan_view(plan@)[q] == spec_reusable(old_hashes@, new_hashes@[q]),
        decreases new_hashes@.len() - k,
    {
        let h = new_hashes[k];
        let mut found: Option<usize> = None;
        let mut j: usize = 0;
        while j < old_hashes.len() && found.is_none()
            invariant
                j <= old_hashes@.len(),
                found matches Some(f) ==> f < j && old_hashes@[f as int] != 0 && old_hashes@[f as int] == h
                    && forall|q: int| 0 <= q < f ==> !(old_hashes@[q] != 0 && old_hashes@[q] == h),
                found is None ==> forall|q: int| 0 <= q < j ==> !(old_hashes@[q] != 0 && old_hashes@[q] == h),
            decreases old_hashes@.len() - j,
        {
            if old_hashes[j] != 0 && old_hashes[j] == h {
                found = Some(j);
            }
            j += 1;
        }
        proof {
            match found {
                Some(f) => {
                    let w = spec_reusable(old_hashes@, h);
                    assert(w is Some);
                    let c = w->0;
                    if c < f {
                        assert(!(old_hashes@[c] != 0 && old_hashes@[c] == h));
                    } else if c > f {
                        assert(old_hashes@[f as int] != h);
                    }
                    assert(c == f);
                },
                None => {
                    assert(spec_reusable(old_hashes@, h) is None);
                },
            }
        }
        let ghost before = plan@;
        plan.push(found);
        assert forall|q: int| 0 <= q < k implies #[trigger] plan_view(plan@)[q] == spec_reusable(old_hashes@, new_hashes@[q]) by {
            assert(plan_view(plan@)[q] == plan_view(before)[q]);
        }
        assert(plan_view(plan@)[k as int] == spec_reusable(old_hashes@, new_hashes@[k as int]));
        k += 1;
    }
    plan
}

/// The metadata half of the dense index.
#[derive(Debug, Clone)]
pub struct Meta {
    pub entries: Vec<EntryMeta>,
    pub manifest: Manifest,
}

} // verus!
