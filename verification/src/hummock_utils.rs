//! Key-range checks of the Hummock storage engine: whether a search range can
//! meet an SST's key range, pruning SSTs by it, and validating epochs and the
//! SST metadata of a version.
use vstd::prelude::*;
use crate::key_order::{
    bytes_le, bytes_lt, compare_keys, lemma_bytes_le_chain, lemma_bytes_lt_total, KeyOrder,
};

verus! {

/// Number of bytes of the epoch that ends every full key.
pub const EPOCH_LEN: usize = 8;

/// One end of a search range over keys.
#[derive(Debug, Clone, PartialEq, Eq)]
pub enum KeyBound {
    Included(Vec<u8>),
    Excluded(Vec<u8>),
    Unbounded,
}

/// A search range over user keys: from `start` to `end`.
#[derive(Debug, Clone, PartialEq, Eq)]
pub struct KeyRangeBounds {
    pub start: KeyBound,
    pub end: KeyBound,
}

/// The key range of an SST: its smallest and largest full keys.
#[derive(Debug, Clone, PartialEq, Eq)]
pub struct KeyRange {
    pub left: Vec<u8>,
    pub right: Vec<u8>,
    pub inf: bool,
}

/// Metadata of one SST.
#[derive(Debug, Clone, PartialEq, Eq)]
pub struct SstableInfo {
    pub id: u64,
    pub key_range: Option<KeyRange>,
}

/// One level of the LSM tree.
#[derive(Debug, Clone, PartialEq, Eq)]
pub struct Level {
    pub level_idx: u32,
    pub table_infos: Vec<SstableInfo>,
}

/// Errors of the storage engine that these checks raise.
#[derive(Debug, Clone, PartialEq, Eq, Structural)]
pub enum HummockError {
    /// A read at `epoch`, older than the oldest epoch still kept.
    ExpiredEpoch { safe_epoch: u64, epoch: u64 },
    /// Metadata error: the SST `table_id` has no key range.
    MissingKeyRange { table_id: u64 },
}

/// The bound that a scan meets first: the end of the range for a reverse scan.
pub open spec fn first_bound(range: KeyRangeBounds, reverse: bool) -> KeyBound {
    if reverse {
        range.end
    } else {
        range.start
    }
}

/// The bound that a scan meets last: the start of the range for a reverse scan.
pub open spec fn last_bound(range: KeyRangeBounds, reverse: bool) -> KeyBound {
    if reverse {
        range.start
    } else {
        range.end
    }
}

/// The range lies wholly after an SST whose largest key is `end_key`.
pub open spec fn too_left(start_bound: KeyBound, end_key: Seq<u8>) -> bool {
    match start_bound {
        KeyBound::Included(s) => bytes_lt(end_key, s@),
        KeyBound::Excluded(s) => bytes_le(end_key, s@),
        KeyBound::Unbounded => false,
    }
}

/// The range lies wholly before an SST whose smallest key is `start_key`.
pub open spec fn too_right(end_bound: KeyBound, start_key: Seq<u8>) -> bool {
    match end_bound {
        KeyBound::Included(e) => bytes_lt(e@, start_key),
        KeyBound::Excluded(e) => bytes_le(e@, start_key),
        KeyBound::Unbounded => false,
    }
}

/// What `range_overlap` answers.
pub open spec fn spec_range_overlap(
    range: KeyRangeBounds,
    start_key: Seq<u8>,
    end_key: Seq<u8>,
    reverse: bool,
) -> bool {
    !too_left(first_bound(range, reverse), end_key) && !too_right(last_bound(range, reverse), start_key)
}

/// `key` lies on the inner side of `bound` taken as a lower bound.
pub open spec fn above_lower(bound: KeyBound, key: Seq<u8>) -> bool {
    match bound {
        KeyBound::Included(s) => bytes_le(s@, key),
        KeyBound::Excluded(s) => bytes_lt(s@, key),
        KeyBound::Unbounded => true,
    }
}

/// `key` lies on the inner side of `bound` taken as an upper bound.
pub open spec fn below_upper(bound: KeyBound, key: Seq<u8>) -> bool {
    match bound {
        KeyBound::Included(e) => bytes_le(key, e@),
        KeyBound::Excluded(e) => bytes_lt(key, e@),
        KeyBound::Unbounded => true,
    }
}

/// `key` lies in the search range, read in the scan's direction.
pub open spec fn in_search_range(range: KeyRangeBounds, reverse: bool, key: Seq<u8>) -> bool {
    above_lower(first_bound(range, reverse), key) && below_upper(last_bound(range, reverse), key)
}

/// `key` lies between the SST's smallest and largest keys.
pub open spec fn in_table_range(start_key: Seq<u8>, end_key: Seq<u8>, key: Seq<u8>) -> bool {
    bytes_le(start_key, key) && bytes_le(key, end_key)
}

/// Whether `key` lies outside the bound `b`: below it when `b` is taken as a
/// lower bound (`lower`), above it otherwise.
fn past_bound(b: &KeyBound, key: &[u8], lower: bool) -> (r: bool)
    ensures
        lower ==> r == match *b {
            KeyBound::Included(s) => bytes_lt(key@, s@),
            KeyBound::Excluded(s) => bytes_le(key@, s@),
            KeyBound::Unbounded => false,
        },
        !lower ==> r == match *b {
            KeyBound::Included(e) => bytes_lt(e@, key@),
            KeyBound::Excluded(e) => bytes_le(e@, key@),
            KeyBound::Unbounded => false,
        },
{
    match b {
        KeyBound::Included(k) => {
            let o = compare_keys(k.as_slice(), key);
            if lower {
                o == KeyOrder::Greater
            } else {
                o == KeyOrder::Less
            }
        },
        KeyBound::Excluded(k) => {
            let o = compare_keys(k.as_slice(), key);
            if lower {
                o != KeyOrder::Less
            } else {
                o != KeyOrder::Greater
            }
        },
        KeyBound::Unbounded => false,
    }
}

/// Whether the search range can hold a key of an SST whose smallest and
/// largest keys are `inclusive_start_key` and `inclusive_end_key`.  For a
/// reverse scan the range is written from its end to its start, so its bounds
/// are read swapped.
pub fn range_overlap(
    search_key_range: &KeyRangeBounds,
    inclusive_start_key: &[u8],
    inclusive_end_key: &[u8],
    reverse: bool,
) -> (r: bool)
    ensures
        r == spec_range_overlap(*search_key_range, inclusive_start_key@, inclusive_end_key@, reverse),
{
    let (start_bound, end_bound) = if reverse {
        (&search_key_range.end, &search_key_range.start)
    } else {
        (&search_key_range.start, &search_key_range.end)
    };
    let too_left = past_bound(start_bound, inclusive_end_key, true);
    let too_right = past_bound(end_bound, inclusive_start_key, false);
    !too_left && !too_right
}

/// No SST is ever pruned that holds a key of the search range: whenever some
/// key lies both in the range and between the SST's smallest and largest keys,
/// `range_overlap` answers true.
pub proof fn lemma_range_overlap_sound(
    range: KeyRangeBounds,
    start_key: Seq<u8>,
    end_key: Seq<u8>,
    reverse: bool,
    key: Seq<u8>,
)
    requires
        in_search_range(range, reverse, key),
        in_table_range(start_key, end_key, key),
    ensures
        spec_range_overlap(range, start_key, end_key, reverse),
{
    let lo = first_bound(range, reverse);
    let hi = last_bound(range, reverse);
    match lo {
        KeyBound::Included(s) => {
            lemma_bytes_le_chain(s@, key, end_key);
            lemma_bytes_lt_total(end_key, s@);
        },
        KeyBound::Excluded(s) => {
            lemma_bytes_le_chain(s@, key, end_key);
            lemma_bytes_lt_total(end_key, s@);
        },
        KeyBound::Unbounded => {},
    }
    match hi {
        KeyBound::Included(e) => {
            lemma_bytes_le_chain(start_key, key, e@);
            lemma_bytes_lt_total(start_key, e@);
        },
        KeyBound::Excluded(e) => {
            lemma_bytes_le_chain(start_key, key, e@);
            lemma_bytes_lt_total(start_key, e@);
        },
        KeyBound::Unbounded => {},
    }
}

/// A bound that holds its key on the range's side.
pub open spec fn not_excluded(b: KeyBound) -> bool {
    !(b is Excluded)
}

/// The range holds some key: for inclusive or open bounds, its lower bound
/// does not exceed its upper bound.
pub open spec fn bounds_in_order(lo: KeyBound, hi: KeyBound) -> bool {
    match (lo, hi) {
        (KeyBound::Included(s), KeyBound::Included(e)) => bytes_le(s@, e@),
        _ => true,
    }
}

/// With bounds that are inclusive or open, `range_overlap` is exact: when it
/// answers true for a non-empty range and an SST whose smallest key does not
/// exceed its largest, some key lies in both.
pub proof fn lemma_range_overlap_complete(
    range: KeyRangeBounds,
    start_key: Seq<u8>,
    end_key: Seq<u8>,
    reverse: bool,
)
    requires
        not_excluded(first_bound(range, reverse)),
        not_excluded(last_bound(range, reverse)),
        bounds_in_order(first_bound(range, reverse), last_bound(range, reverse)),
        bytes_le(start_key, end_key),
        spec_range_overlap(range, start_key, end_key, reverse),
    ensures
        exists|key: Seq<u8>|
            in_search_range(range, reverse, key) && in_table_range(start_key, end_key, key),
{
    let lo = first_bound(range, reverse);
    let hi = last_bound(range, reverse);
    let witness = match lo {
        KeyBound::Included(s) => if bytes_lt(s@, start_key) {
            start_key
        } else {
            s@
        },
        _ => start_key,
    };
    lemma_bytes_lt_total(witness, start_key);
    lemma_bytes_lt_total(witness, end_key);
    lemma_bytes_lt_total(start_key, end_key);
    match lo {
        KeyBound::Included(s) => {
            lemma_bytes_lt_total(s@, start_key);
            lemma_bytes_lt_total(end_key, s@);
        },
        _ => {},
    }
    match hi {
        KeyBound::Included(e) => {
            lemma_bytes_lt_total(e@, start_key);
            lemma_bytes_le_chain(witness, start_key, e@);
            match lo {
                KeyBound::Included(s) => {
                    lemma_bytes_le_chain(s@, witness, e@);
                },
                _ => {},
            }
        },
        _ => {},
    }
    match lo {
        KeyBound::Included(s) => {
            lemma_bytes_le_chain(s@, start_key, witness);
            lemma_bytes_le_chain(witness, start_key, end_key);
        },
        _ => {},
    }
    assert(in_search_range(range, reverse, witness) && in_table_range(start_key, end_key, witness));
}

/// Fails with `ExpiredEpoch` when `epoch` is older than `safe_epoch`.
pub fn validate_epoch(safe_epoch: u64, epoch: u64) -> (r: Result<(), HummockError>)
    ensures
        epoch < safe_epoch ==> r == Err::<(), HummockError>(
            HummockError::ExpiredEpoch { safe_epoch, epoch },
        ),
        epoch >= safe_epoch ==> r == Ok::<(), HummockError>(()),
{
    if epoch < safe_epoch {
        return Err(HummockError::ExpiredEpoch { safe_epoch, epoch });
    }
    Ok(())
}


/// All SSTs of the levels, level by level, each level in its own order.
pub open spec fn all_tables(levels: Seq<Level>) -> Seq<SstableInfo>
    decreases levels.len(),
{
    if levels.len() == 0 {
        Seq::empty()
    } else {
        all_tables(levels.drop_last()) + levels.last().table_infos@
    }
}

/// The position of the first SST, in the order of `all_tables`, without a key
/// range.
pub open spec fn first_missing_key_range(tables: Seq<SstableInfo>, i: int) -> bool {
    &&& 0 <= i < tables.len()
    &&& tables[i].key_range is None
    &&& forall|j: int| 0 <= j < i ==> (#[trigger] tables[j]).key_range is Some
}

/// Fails with `MissingKeyRange` naming the first SST (level by level) that has
/// no key range; succeeds when every SST has one.
pub fn validate_table_key_range(levels: &[Level]) -> (r: Result<(), HummockError>)
    ensures
        match r {
            Ok(()) => forall|j: int|
                0 <= j < all_tables(levels@).len() ==> (#[trigger] all_tables(levels@)[j]).key_range is Some,
            Err(e) => exists|i: int|
                first_missing_key_range(all_tables(levels@), i) && e == HummockError::MissingKeyRange {
                    table_id: all_tables(levels@)[i].id,
                },
        },
{
    let mut li: usize = 0;
    while li < levels.len()
        invariant
            li <= levels@.len(),
            forall|j: int|
                0 <= j < all_tables(levels@.take(li as int)).len() ==> (#[trigger] all_tables(
                    levels@.take(li as int),
                )[j]).key_range is Some,
        decreases levels.len() - li,
    {
        let ghost prefix = all_tables(levels@.take(li as int));
        let tables = &levels[li].table_infos;
        assert(levels@.take(li + 1).drop_last() =~= levels@.take(li as int));
        assert(all_tables(levels@.take(li + 1)) == prefix + tables@);
        let mut ti: usize = 0;
        while ti < tables.len()
            invariant
                ti <= tables@.len(),
                li < levels@.len(),
                tables@ == levels@[li as int].table_infos@,
                all_tables(levels@.take(li + 1)) == prefix + tables@,
                forall|j: int| 0 <= j < prefix.len() ==> (#[trigger] prefix[j]).key_range is Some,
                forall|j: int| 0 <= j < ti ==> (#[trigger] tables@[j]).key_range is Some,
            decreases tables.len() - ti,
        {
            if tables[ti].key_range.is_none() {
                proof {
                    let whole = all_tables(levels@);
                    let upto = all_tables(levels@.take(li + 1));
                    lemma_all_tables_prefix(levels@, li as int + 1);
                    let i = prefix.len() + ti;
                    assert(upto[i] == tables@[ti as int]);
                    assert forall|j: int| 0 <= j < i implies (#[trigger] whole[j]).key_range is Some by {
                        assert(whole[j] == upto[j]);
                        if j >= prefix.len() {
                            assert(upto[j] == tables@[j - prefix.len()]);
                        }
                    }
                    assert(first_missing_key_range(whole, i));
                }
                return Err(HummockError::MissingKeyRange { table_id: tables[ti].id });
            }
            ti = ti + 1;
        }
        proof {
            let upto = all_tables(levels@.take(li + 1));
            assert forall|j: int| 0 <= j < upto.len() implies (#[trigger] upto[j]).key_range is Some by {
                if j >= prefix.len() {
                    assert(upto[j] == tables@[j - prefix.len()]);
                }
            }
        }
        li = li + 1;
    }
    assert(levels@.take(levels@.len() as int) =~= levels@);
    Ok(())
}

/// The SSTs of the first `n` levels come first among those of all levels.
proof fn lemma_all_tables_prefix(levels: Seq<Level>, n: int)
    requires
        0 <= n <= levels.len(),
    ensures
        all_tables(levels.take(n)).len() <= all_tables(levels).len(),
        forall|j: int|
            0 <= j < all_tables(levels.take(n)).len() ==> #[trigger] all_tables(levels.take(n))[j]
                == all_tables(levels)[j],
    decreases levels.len(),
{
    if n < levels.len() {
        assert(levels.drop_last().take(n) =~= levels.take(n));
        lemma_all_tables_prefix(levels.drop_last(), n);
    } else {
        assert(levels.take(n) =~= levels);
    }
}

/// The user key of a full key: the full key without its trailing epoch.
pub fn user_key(full_key: &[u8]) -> (r: &[u8])
    requires
        full_key@.len() >= EPOCH_LEN,
    ensures
        r@ == full_key@.take(full_key@.len() - EPOCH_LEN),
{
    let r = vstd::slice::slice_subrange(full_key, 0, full_key.len() - EPOCH_LEN);
    assert(r@ =~= full_key@.take(full_key@.len() - EPOCH_LEN));
    r
}

/// The SST can be pruned from a scan: it has a key range, and its user-key
/// range does not meet the search range.
pub open spec fn sst_overlaps(info: SstableInfo, range: KeyRangeBounds, reversed: bool) -> bool {
    let kr = info.key_range->0;
    spec_range_overlap(
        range,
        kr.left@.take(kr.left@.len() - EPOCH_LEN),
        kr.right@.take(kr.right@.len() - EPOCH_LEN),
        reversed,
    )
}

/// The SST has a key range whose full keys each end in an epoch.
pub open spec fn sst_has_full_key_range(info: SstableInfo) -> bool {
    &&& info.key_range is Some
    &&& info.key_range->0.left@.len() >= EPOCH_LEN
    &&& info.key_range->0.right@.len() >= EPOCH_LEN
}

/// Ids of the SSTs, in order, whose user-key range meets the search range.
pub open spec fn spec_prune_ssts(ssts: Seq<SstableInfo>, range: KeyRangeBounds, reversed: bool) -> Seq<u64>
    decreases ssts.len(),
{
    if ssts.len() == 0 {
        Seq::empty()
    } else {
        let rest = spec_prune_ssts(ssts.drop_last(), range, reversed);
        if sst_overlaps(ssts.last(), range, reversed) {
            rest.push(ssts.last().id)
        } else {
            rest
        }
    }
}

/// Pruning never drops an SST that holds a key of the search range: when the
/// user key `key` lies in the range and between the smallest and largest user
/// keys of the SST at position `i`, that SST's id is among those kept, at the
/// place of the SSTs kept before it.
pub proof fn lemma_prune_keeps_overlapping(
    ssts: Seq<SstableInfo>,
    range: KeyRangeBounds,
    reversed: bool,
    i: int,
    key: Seq<u8>,
)
    requires
        0 <= i < ssts.len(),
        sst_has_full_key_range(ssts[i]),
        in_search_range(range, reversed, key),
        in_table_range(
            ssts[i].key_range->0.left@.take(ssts[i].key_range->0.left@.len() - EPOCH_LEN),
            ssts[i].key_range->0.right@.take(ssts[i].key_range->0.right@.len() - EPOCH_LEN),
            key,
        ),
    ensures
        spec_prune_ssts(ssts, range, reversed).contains(ssts[i].id),
    decreases ssts.len(),
{
    let kr = ssts[i].key_range->0;
    lemma_range_overlap_sound(
        range,
        kr.left@.take(kr.left@.len() - EPOCH_LEN),
        kr.right@.take(kr.right@.len() - EPOCH_LEN),
        reversed,
        key,
    );
    let rest = spec_prune_ssts(ssts.drop_last(), range, reversed);
    if i == ssts.len() - 1 {
        assert(spec_prune_ssts(ssts, range, reversed) == rest.push(ssts[i].id));
        assert(rest.push(ssts[i].id)[rest.len() as int] == ssts[i].id);
    } else {
        assert(ssts.drop_last()[i] == ssts[i]);
        lemma_prune_keeps_overlapping(ssts.drop_last(), range, reversed, i, key);
        let k = choose|k: int| 0 <= k < rest.len() && rest[k] == ssts[i].id;
        if sst_overlaps(ssts.last(), range, reversed) {
            assert(rest.push(ssts.last().id)[k] == ssts[i].id);
        }
    }
}

/// Prunes SSTs that do not overlap with the search range and returns the ids
/// of those that remain, in their order.  Every SST must carry a key range.
pub fn prune_ssts(ssts: &[SstableInfo], key_range: &KeyRangeBounds, reversed: bool) -> (r: Vec<u64>)
    requires
        forall|i: int| 0 <= i < ssts@.len() ==> sst_has_full_key_range(#[trigger] ssts@[i]),
    ensures
        r@ == spec_prune_ssts(ssts@, *key_range, reversed),
{
    let mut result: Vec<u64> = Vec::new();
    let mut i: usize = 0;
    while i < ssts.len()
        invariant
            i <= ssts@.len(),
            forall|j: int| 0 <= j < ssts@.len() ==> sst_has_full_key_range(#[trigger] ssts@[j]),
            result@ == spec_prune_ssts(ssts@.take(i as int), *key_range, reversed),
        decreases ssts.len() - i,
    {
        let info = &ssts[i];
        assert(sst_has_full_key_range(ssts@[i as int]));
        let table_range = match &info.key_range {
            Some(kr) => kr,
            None => {
                return result;
            },
        };
        let table_start = user_key(table_range.left.as_slice());
        let table_end = user_key(table_range.right.as_slice());
        let keep = range_overlap(key_range, table_start, table_end, reversed);
        assert(ssts@.take(i + 1).drop_last() =~= ssts@.take(i as int));
        if keep {
            result.push(info.id);
        }
        i = i + 1;
    }
    assert(ssts@.take(ssts@.len() as int) =~= ssts@);
    result
}

} // verus!
