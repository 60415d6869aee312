//! Tree objects: the binary entry format and the entry order.
//!
//! A serialized tree is `"<mode> <name>\0" + <20 raw digest bytes>` repeated
//! per entry. Entries are ordered by byte-wise comparison of the on-disk name
//! bytes, a directory name compared as if a path separator were appended.

use vstd::prelude::*;
use vstd::multiset::Multiset;
use vstd::relations::sorted_by;
use vstd::relations::total_ordering;
use vstd::seq_lib::lemma_multiset_commutative;
use vstd::seq_lib::lemma_sorted_unique;
use crate::hashing::unhex_of;
use crate::types::TreeEntry;
use crate::types::TreeEntryMode;
use crate::types::TreeEntryV;

verus! {

/// The on-disk mode string of a tree entry mode.
pub open spec fn mode_bytes(m: TreeEntryMode) -> Seq<u8> {
    match m {
        TreeEntryMode::RegularFile => seq![49u8, 48u8, 48u8, 54u8, 52u8, 52u8],
        TreeEntryMode::ExecutableFile => seq![49u8, 48u8, 48u8, 55u8, 53u8, 53u8],
        TreeEntryMode::SymbolicLink => seq![49u8, 50u8, 48u8, 48u8, 48u8, 48u8],
        TreeEntryMode::Directory => seq![52u8, 48u8, 48u8, 48u8, 48u8],
    }
}

/// The mode a mode string denotes; anything outside the closed set is
/// unsupported.
pub open spec fn mode_of_bytes(s: Seq<u8>) -> Option<TreeEntryMode> {
    if s == mode_bytes(TreeEntryMode::Directory) {
        Some(TreeEntryMode::Directory)
    } else if s == mode_bytes(TreeEntryMode::RegularFile) {
        Some(TreeEntryMode::RegularFile)
    } else if s == mode_bytes(TreeEntryMode::ExecutableFile) {
        Some(TreeEntryMode::ExecutableFile)
    } else if s == mode_bytes(TreeEntryMode::SymbolicLink) {
        Some(TreeEntryMode::SymbolicLink)
    } else {
        None
    }
}

/// Reading back a mode string gives the mode.
pub proof fn lemma_mode_of_bytes_of(m: TreeEntryMode)
    ensures
        mode_of_bytes(mode_bytes(m)) == Some(m),
{
    match m {
        TreeEntryMode::RegularFile => {
            assert(mode_bytes(m)[3] == 54);
            assert(mode_bytes(TreeEntryMode::ExecutableFile)[3] == 55);
        },
        TreeEntryMode::ExecutableFile => {
            assert(mode_bytes(m)[3] == 55);
            assert(mode_bytes(TreeEntryMode::RegularFile)[3] == 54);
        },
        TreeEntryMode::SymbolicLink => {
            assert(mode_bytes(m)[1] == 50);
            assert(mode_bytes(TreeEntryMode::RegularFile)[1] == 48);
            assert(mode_bytes(TreeEntryMode::ExecutableFile)[1] == 48);
        },
        TreeEntryMode::Directory => {
            assert(mode_bytes(m).len() == 5);
        },
    }
}

/// The mode string as bytes.
pub fn mode_vec(m: TreeEntryMode) -> (r: Vec<u8>)
    ensures
        r@ == mode_bytes(m),
{
    let mut v: Vec<u8> = Vec::new();
    match m {
        TreeEntryMode::RegularFile => {
            v.push(49);
            v.push(48);
            v.push(48);
            v.push(54);
            v.push(52);
            v.push(52);
        },
        TreeEntryMode::ExecutableFile => {
            v.push(49);
            v.push(48);
            v.push(48);
            v.push(55);
            v.push(53);
            v.push(53);
        },
        TreeEntryMode::SymbolicLink => {
            v.push(49);
            v.push(50);
            v.push(48);
            v.push(48);
            v.push(48);
            v.push(48);
        },
        TreeEntryMode::Directory => {
            v.push(52);
            v.push(48);
            v.push(48);
            v.push(48);
            v.push(48);
        },
    }
    proof {
        assert(v@ =~= mode_bytes(m));
    }
    v
}

/// The mode a mode string denotes, exactly as `mode_of_bytes` says.
pub fn parse_mode(v: &Vec<u8>) -> (r: Option<TreeEntryMode>)
    ensures
        r == mode_of_bytes(v@),
{
    if v.len() == 5 {
        if v[0] == 52 && v[1] == 48 && v[2] == 48 && v[3] == 48 && v[4] == 48 {
            proof {
                assert(v@ =~= mode_bytes(TreeEntryMode::Directory));
            }
            return Some(TreeEntryMode::Directory);
        }
        return None;
    }
    if v.len() == 6 {
        if v[0] == 49 && v[1] == 48 && v[2] == 48 && v[3] == 54 && v[4] == 52 && v[5] == 52 {
            proof {
                assert(v@ =~= mode_bytes(TreeEntryMode::RegularFile));
            }
            return Some(TreeEntryMode::RegularFile);
        }
        if v[0] == 49 && v[1] == 48 && v[2] == 48 && v[3] == 55 && v[4] == 53 && v[5] == 53 {
            proof {
                assert(v@ =~= mode_bytes(TreeEntryMode::ExecutableFile));
            }
            return Some(TreeEntryMode::ExecutableFile);
        }
        if v[0] == 49 && v[1] == 50 && v[2] == 48 && v[3] == 48 && v[4] == 48 && v[5] == 48 {
            proof {
                assert(v@ =~= mode_bytes(TreeEntryMode::SymbolicLink));
            }
            return Some(TreeEntryMode::SymbolicLink);
        }
        return None;
    }
    None
}

/// Byte-wise lexicographic order on byte sequences.
pub open spec fn bytes_le(a: Seq<u8>, b: Seq<u8>) -> bool
    decreases a.len(),
{
    if a.len() == 0 {
        true
    } else if b.len() == 0 {
        false
    } else if a[0] < b[0] {
        true
    } else if a[0] > b[0] {
        false
    } else {
        bytes_le(a.drop_first(), b.drop_first())
    }
}

/// `bytes_le` is reflexive.
pub proof fn lemma_bytes_le_refl(a: Seq<u8>)
    ensures
        bytes_le(a, a),
    decreases a.len(),
{
    if a.len() > 0 {
        lemma_bytes_le_refl(a.drop_first());
    }
}

/// `bytes_le` is total.
pub proof fn lemma_bytes_le_total(a: Seq<u8>, b: Seq<u8>)
    ensures
        bytes_le(a, b) || bytes_le(b, a),
    decreases a.len(),
{
    if a.len() > 0 && b.len() > 0 && a[0] == b[0] {
        lemma_bytes_le_total(a.drop_first(), b.drop_first());
    }
}

/// `bytes_le` is antisymmetric.
pub proof fn lemma_bytes_le_antisym(a: Seq<u8>, b: Seq<u8>)
    requires
        bytes_le(a, b),
        bytes_le(b, a),
    ensures
        a == b,
    decreases a.len(),
{
    if a.len() == 0 {
        assert(a =~= b);
    } else {
        assert(b.len() > 0);
        assert(a[0] == b[0]);
        lemma_bytes_le_antisym(a.drop_first(), b.drop_first());
        assert(a.len() == b.len());
        assert forall|i: int| 0 <= i < a.len() implies a[i] == b[i] by {
            if i > 0 {
                assert(a[i] == a.drop_first()[i - 1]);
                assert(b[i] == b.drop_first()[i - 1]);
            }
        }
        assert(a =~= b);
    }
}

/// `bytes_le` is transitive.
pub proof fn lemma_bytes_le_trans(a: Seq<u8>, b: Seq<u8>, c: Seq<u8>)
    requires
        bytes_le(a, b),
        bytes_le(b, c),
    ensures
        bytes_le(a, c),
    decreases a.len(),
{
    if a.len() > 0 && b.len() > 0 && c.len() > 0 && a[0] == b[0] && b[0] == c[0] {
        lemma_bytes_le_trans(a.drop_first(), b.drop_first(), c.drop_first());
    }
}

/// The key an entry is ordered by: its name bytes, a directory's as if a
/// path separator followed them.
pub open spec fn sort_key(e: TreeEntryV) -> Seq<u8> {
    if e.mode is Directory {
        e.name + seq![47u8]
    } else {
        e.name
    }
}

/// A fixed rank to break ties between modes.
pub open spec fn mode_rank(m: TreeEntryMode) -> int {
    match m {
        TreeEntryMode::RegularFile => 0,
        TreeEntryMode::ExecutableFile => 1,
        TreeEntryMode::SymbolicLink => 2,
        TreeEntryMode::Directory => 3,
    }
}

/// The order entries are serialized in: by sort key, ties broken by mode,
/// name and digest so that the order is total.
pub open spec fn entry_le(a: TreeEntryV, b: TreeEntryV) -> bool {
    if sort_key(a) != sort_key(b) {
        bytes_le(sort_key(a), sort_key(b))
    } else if a.mode != b.mode {
        mode_rank(a.mode) <= mode_rank(b.mode)
    } else if a.name != b.name {
        bytes_le(a.name, b.name)
    } else {
        bytes_le(a.sha, b.sha)
    }
}

/// The entry order as a relation value, for the sorting lemmas.
pub open spec fn entry_leq() -> spec_fn(TreeEntryV, TreeEntryV) -> bool {
    |a: TreeEntryV, b: TreeEntryV| entry_le(a, b)
}

/// Equal ranks mean equal modes.
proof fn lemma_mode_rank_inj(a: TreeEntryMode, b: TreeEntryMode)
    requires
        mode_rank(a) == mode_rank(b),
    ensures
        a == b,
{
}

/// `entry_le(a, b) && entry_le(b, a)` forces the entries equal.
proof fn lemma_entry_le_antisym(a: TreeEntryV, b: TreeEntryV)
    requires
        entry_le(a, b),
        entry_le(b, a),
    ensures
        a == b,
{
    if sort_key(a) != sort_key(b) {
        lemma_bytes_le_antisym(sort_key(a), sort_key(b));
    } else if a.mode != b.mode {
        lemma_mode_rank_inj(a.mode, b.mode);
    } else if a.name != b.name {
        lemma_bytes_le_antisym(a.name, b.name);
    } else {
        lemma_bytes_le_antisym(a.sha, b.sha);
        assert(a =~= b);
    }
}

/// `entry_le` is transitive.
proof fn lemma_entry_le_trans(a: TreeEntryV, b: TreeEntryV, c: TreeEntryV)
    requires
        entry_le(a, b),
        entry_le(b, c),
    ensures
        entry_le(a, c),
{
    let ka = sort_key(a);
    let kb = sort_key(b);
    let kc = sort_key(c);
    if ka != kb && kb != kc {
        lemma_bytes_le_trans(ka, kb, kc);
        if ka == kc {
            lemma_bytes_le_antisym(ka, kb);
        }
    } else if ka != kb && kb == kc {
        assert(ka != kc);
    } else if ka == kb && kb != kc {
        assert(ka != kc);
    } else {
        // All keys equal: the tie-break levels.
        if a.mode != b.mode && b.mode != c.mode {
            if a.mode == c.mode {
                lemma_mode_rank_inj(a.mode, b.mode);
            }
        } else if a.mode == b.mode && b.mode == c.mode {
            if a.name != b.name && b.name != c.name {
                lemma_bytes_le_trans(a.name, b.name, c.name);
                if a.name == c.name {
                    lemma_bytes_le_antisym(a.name, b.name);
                }
            } else if a.name == b.name && b.name == c.name {
                lemma_bytes_le_trans(a.sha, b.sha, c.sha);
            }
        }
    }
}

/// The entry order is a total ordering, so sorting by it has one result.
pub proof fn lemma_entry_le_total_ordering()
    ensures
        total_ordering(entry_leq()),
{
    let leq = entry_leq();
    assert forall|a: TreeEntryV| #[trigger] leq(a, a) by {
        lemma_bytes_le_refl(sort_key(a));
        lemma_bytes_le_refl(a.sha);
    }
    assert forall|a: TreeEntryV, b: TreeEntryV| #![trigger leq(a, b)] leq(a, b) && leq(b, a)
        implies a == b by {
        lemma_entry_le_antisym(a, b);
    }
    assert forall|a: TreeEntryV, b: TreeEntryV, c: TreeEntryV|
        #![trigger leq(a, b), leq(b, c)]
        leq(a, b) && leq(b, c) implies leq(a, c) by {
        lemma_entry_le_trans(a, b, c);
    }
    assert forall|a: TreeEntryV, b: TreeEntryV| #![trigger leq(a, b)] !leq(a, b) implies leq(
        b,
        a,
    ) by {
        lemma_bytes_le_total(sort_key(a), sort_key(b));
        lemma_bytes_le_total(a.name, b.name);
        lemma_bytes_le_total(a.sha, b.sha);
    }
}

/// The serialized bytes of one entry.
pub open spec fn entry_bytes(e: TreeEntryV) -> Seq<u8> {
    mode_bytes(e.mode) + seq![32u8] + e.name + seq![0u8] + unhex_of(e.sha)
}

/// The serialized bytes of a sequence of entries, in the given order.
pub open spec fn tree_bytes(s: Seq<TreeEntryV>) -> Seq<u8>
    decreases s.len(),
{
    if s.len() == 0 {
        seq![]
    } else {
        entry_bytes(s[0]) + tree_bytes(s.drop_first())
    }
}

/// Serialization appends entry by entry.
pub proof fn lemma_tree_bytes_snoc(s: Seq<TreeEntryV>)
    requires
        s.len() > 0,
    ensures
        tree_bytes(s) == tree_bytes(s.drop_last()) + entry_bytes(s.last()),
    decreases s.len(),
{
    if s.len() == 1 {
        assert(s.drop_first() =~= Seq::<TreeEntryV>::empty());
        assert(s.drop_last() =~= Seq::<TreeEntryV>::empty());
        assert(tree_bytes(s) =~= tree_bytes(s.drop_last()) + entry_bytes(s.last()));
    } else {
        lemma_tree_bytes_snoc(s.drop_first());
        assert(s.drop_first().drop_last() =~= s.drop_last().drop_first());
        assert(s.drop_first().last() == s.last());
        assert(s.drop_last()[0] == s[0]);
        assert(tree_bytes(s) =~= tree_bytes(s.drop_last()) + entry_bytes(s.last()));
    }
}

/// The view of each entry of an entry vector.
pub open spec fn evs(s: Seq<TreeEntry>) -> Seq<TreeEntryV> {
    s.map_values(|e: TreeEntry| e@)
}

/// The entry order, computed.
pub fn entry_le_exec(a: &TreeEntry, b: &TreeEntry) -> (r: bool)
    ensures
        r == entry_le(a@, b@),
{
    let ka = key_vec(a);
    let kb = key_vec(b);
    if !crate::util::vec_eq(&ka, &kb) {
        return bytes_le_exec(&ka, &kb);
    }
    let ra = mode_rank_exec(a.mode);
    let rb = mode_rank_exec(b.mode);
    if ra != rb {
        proof {
            if a@.mode == b@.mode {
                assert(mode_rank(a@.mode) == mode_rank(b@.mode));
            }
        }
        return ra <= rb;
    }
    proof {
        lemma_mode_rank_inj(a@.mode, b@.mode);
    }
    if !crate::util::vec_eq(&a.name, &b.name) {
        return bytes_le_exec(&a.name, &b.name);
    }
    bytes_le_exec(&a.object_sha, &b.object_sha)
}

/// The rank of a mode, computed.
fn mode_rank_exec(m: TreeEntryMode) -> (r: u8)
    ensures
        r as int == mode_rank(m),
{
    match m {
        TreeEntryMode::RegularFile => 0,
        TreeEntryMode::ExecutableFile => 1,
        TreeEntryMode::SymbolicLink => 2,
        TreeEntryMode::Directory => 3,
    }
}

/// The sort key of an entry, computed.
pub fn key_vec(e: &TreeEntry) -> (r: Vec<u8>)
    ensures
        r@ == sort_key(e@),
{
    let mut k = crate::util::copy_range(&e.name, 0, e.name.len());
    proof {
        assert(k@ =~= e.name@);
    }
    match e.mode {
        TreeEntryMode::Directory => {
            k.push(47);
        },
        _ => {},
    }
    k
}

/// Byte-wise lexicographic order, computed.
pub fn bytes_le_exec(a: &Vec<u8>, b: &Vec<u8>) -> (r: bool)
    ensures
        r == bytes_le(a@, b@),
{
    let mut i: usize = 0;
    proof {
        assert(a@.skip(0) =~= a@);
        assert(b@.skip(0) =~= b@);
    }
    while i < a.len() && i < b.len()
        invariant
            i <= a@.len(),
            i <= b@.len(),
            bytes_le(a@, b@) == bytes_le(a@.skip(i as int), b@.skip(i as int)),
        decreases a@.len() - i,
    {
        let x = a[i];
        let y = b[i];
        proof {
            assert(a@.skip(i as int)[0] == x);
            assert(b@.skip(i as int)[0] == y);
            assert(a@.skip(i as int).drop_first() =~= a@.skip(i + 1));
            assert(b@.skip(i as int).drop_first() =~= b@.skip(i + 1));
        }
        if x < y {
            return true;
        }
        if x > y {
            return false;
        }
        i = i + 1;
    }
    proof {
        if i >= a@.len() {
            assert(a@.skip(i as int).len() == 0);
        } else {
            assert(b@.skip(i as int).len() == 0);
            assert(a@.skip(i as int).len() > 0);
        }
    }
    i >= a.len()
}

/// First position whose entry the new entry precedes; entries before it
/// precede the new entry.
fn find_insert_pos(out: &Vec<TreeEntry>, e: &TreeEntry) -> (i: usize)
    ensures
        i <= out@.len(),
        forall|j: int| 0 <= j < i ==> entry_le(#[trigger] out@[j]@, e@),
        i < out@.len() ==> entry_le(e@, out@[i as int]@),
{
    let mut i: usize = 0;
    while i < out.len()
        invariant
            i <= out@.len(),
            forall|j: int| 0 <= j < i ==> entry_le(#[trigger] out@[j]@, e@),
        decreases out@.len() - i,
    {
        if entry_le_exec(e, &out[i]) {
            return i;
        }
        proof {
            lemma_bytes_le_total(sort_key(out@[i as int]@), sort_key(e@));
            lemma_bytes_le_total(out@[i as int]@.name, e@.name);
            lemma_bytes_le_total(out@[i as int]@.sha, e@.sha);
            assert(entry_le(out@[i as int]@, e@));
        }
        i = i + 1;
    }
    i
}

/// Inserts an entry into a vector sorted by the entry order, keeping it
/// sorted; the entries afterwards are the entries before plus the new one.
fn insert_sorted(out: &mut Vec<TreeEntry>, e: TreeEntry)
    requires
        sorted_by(evs(old(out)@), entry_leq()),
    ensures
        sorted_by(evs(final(out)@), entry_leq()),
        evs(final(out)@).to_multiset() == evs(old(out)@).to_multiset().insert(e@),
{
    broadcast use vstd::seq_lib::group_to_multiset_ensures;

    let pos = find_insert_pos(out, &e);
    let ghost oldv = evs(out@);
    let ghost ev = e@;
    out.insert(pos, e);
    proof {
        let newv = evs(out@);
        assert(newv =~= oldv.take(pos as int) + seq![ev] + oldv.skip(pos as int));
        // Sortedness: entries left of `pos` precede `ev`, `ev` precedes the
        // rest by transitivity through position `pos`.
        assert forall|x: int, y: int| 0 <= x <= y < newv.len() implies entry_leq()(
            newv[x],
            newv[y],
        ) by {
            let leq = entry_leq();
            if x == y {
                lemma_bytes_le_refl(sort_key(newv[x]));
                lemma_bytes_le_refl(newv[x].sha);
                assert(entry_le(newv[x], newv[x]));
            } else if y < pos {
                assert(newv[x] == oldv[x]);
                assert(newv[y] == oldv[y]);
                assert(leq(oldv[x], oldv[y]));
            } else if x < pos && y == pos {
                assert(newv[x] == oldv[x]);
                assert(newv[y] == ev);
                assert(entry_le(oldv[x], ev));
            } else if x < pos && y > pos {
                assert(newv[x] == oldv[x]);
                assert(newv[y] == oldv[y - 1]);
                assert(leq(oldv[x], oldv[y - 1]));
            } else if x == pos && y > pos {
                assert(pos < oldv.len());
                assert(newv[x] == ev);
                assert(newv[y] == oldv[y - 1]);
                assert(entry_le(ev, oldv[pos as int]));
                if y - 1 > pos {
                    assert(leq(oldv[pos as int], oldv[y - 1]));
                    lemma_entry_le_trans(ev, oldv[pos as int], oldv[y - 1]);
                }
            } else {
                assert(x > pos);
                assert(newv[x] == oldv[x - 1]);
                assert(newv[y] == oldv[y - 1]);
                assert(leq(oldv[x - 1], oldv[y - 1]));
            }
        }
        // Multiset: splitting at `pos` turns the insertion into
        // concatenations.
        lemma_multiset_commutative(oldv.take(pos as int) + seq![ev], oldv.skip(pos as int));
        lemma_multiset_commutative(oldv.take(pos as int), seq![ev]);
        lemma_multiset_commutative(oldv.take(pos as int), oldv.skip(pos as int));
        assert(oldv.take(pos as int) + oldv.skip(pos as int) =~= oldv);
        assert(seq![ev].to_multiset() =~= Multiset::<TreeEntryV>::empty().insert(ev));
        assert((oldv.take(pos as int) + seq![ev] + oldv.skip(pos as int)).to_multiset()
            =~= oldv.to_multiset().insert(ev));
    }
}

/// Sorts entries by the entry order. The result is the one sorted
/// permutation of the input: `sort_by` of the input's entry views.
pub fn sort_entries(entries: Vec<TreeEntry>) -> (r: Vec<TreeEntry>)
    ensures
        evs(r@) == evs(entries@).sort_by(entry_leq()),
{
    broadcast use vstd::seq_lib::group_to_multiset_ensures;

    let mut src = entries;
    let mut out: Vec<TreeEntry> = Vec::new();
    proof {
        assert(evs(out@) =~= Seq::<TreeEntryV>::empty());
        assert(evs(out@).to_multiset().add(evs(src@).to_multiset()) =~= evs(
            entries@,
        ).to_multiset());
    }
    while src.len() > 0
        invariant
            sorted_by(evs(out@), entry_leq()),
            evs(out@).to_multiset().add(evs(src@).to_multiset()) == evs(entries@).to_multiset(),
        decreases src@.len(),
    {
        broadcast use vstd::seq_lib::group_to_multiset_ensures;

        let ghost srcv = evs(src@);
        let e = match src.pop() {
            Some(e) => e,
            None => {
                proof {
                    assert(false);
                }
                return out;
            },
        };
        proof {
            assert(evs(src@) =~= srcv.drop_last());
            assert(srcv.drop_last() =~= srcv.remove(srcv.len() - 1));
            assert(evs(src@).to_multiset() =~= srcv.to_multiset().remove(e@));
            assert(srcv.to_multiset().count(e@) > 0);
        }
        insert_sorted(&mut out, e);
        proof {
            assert(evs(out@).to_multiset().add(evs(src@).to_multiset()) =~= evs(
                entries@,
            ).to_multiset());
        }
    }
    proof {
        assert(evs(src@) =~= Seq::<TreeEntryV>::empty());
        assert(evs(out@).to_multiset() =~= evs(entries@).to_multiset());
        lemma_entry_le_total_ordering();
        evs(entries@).lemma_sort_by_ensures(entry_leq());
        lemma_sorted_unique(evs(out@), evs(entries@).sort_by(entry_leq()), entry_leq());
    }
    out
}

/// Mode strings are decimal digits throughout.
pub proof fn lemma_mode_bytes_digits(m: TreeEntryMode)
    ensures
        forall|i: int| 0 <= i < mode_bytes(m).len() ==> 48 <= #[trigger] mode_bytes(m)[i] <= 57,
{
}

/// Serializes entries in the given order: `"<mode> <name>\0"` plus the raw
/// 20 digest bytes, per entry.
pub fn serialize_entries(entries: &Vec<TreeEntry>) -> (r: Vec<u8>)
    requires
        forall|i: int| 0 <= i < entries@.len() ==> crate::types::wf_entry(#[trigger] entries@[i]@),
    ensures
        r@ == tree_bytes(evs(entries@)),
{
    let mut acc: Vec<u8> = Vec::new();
    let mut i: usize = 0;
    proof {
        assert(evs(entries@).take(0) =~= Seq::<TreeEntryV>::empty());
    }
    while i < entries.len()
        invariant
            i <= entries@.len(),
            forall|k: int| 0 <= k < entries@.len() ==> crate::types::wf_entry(
                #[trigger] entries@[k]@,
            ),
            acc@ == tree_bytes(evs(entries@).take(i as int)),
        decreases entries@.len() - i,
    {
        let ghost pre = acc@;
        let ghost ev = entries@[i as int]@;
        let e = &entries[i];
        let mode_v = mode_vec(e.mode);
        crate::hashing::append_bytes(&mut acc, &mode_v);
        acc.push(32);
        crate::hashing::append_bytes(&mut acc, &e.name);
        acc.push(0);
        let raw = match crate::hashing::hex_decode(&e.object_sha) {
            Some(raw) => raw,
            None => {
                proof {
                    assert(crate::types::is_hex40(ev.sha));
                    assert(e.object_sha@.len() % 2 == 0);
                    assert(forall|j: int|
                        0 <= j < e.object_sha@.len() ==> crate::hashing::is_hex_digit(
                            #[trigger] e.object_sha@[j],
                        ));
                    assert(false);
                }
                return acc;
            },
        };
        crate::hashing::append_bytes(&mut acc, &raw);
        proof {
            assert(acc@ =~= pre + entry_bytes(ev));
            lemma_tree_bytes_snoc(evs(entries@).take(i + 1));
            assert(evs(entries@).take(i + 1).drop_last() =~= evs(entries@).take(i as int));
            assert(evs(entries@).take(i + 1).last() == ev);
        }
        i = i + 1;
    }
    proof {
        assert(evs(entries@).take(entries@.len() as int) =~= evs(entries@));
    }
    acc
}

/// What parsing the content of a tree object gives: entries parsed in
/// sequence until the content is exhausted. An entry without its NUL or its
/// space, or cut short of its 20 digest bytes, is `Corrupt`; a mode string
/// outside the closed set is `UnsupportedMode`.
pub open spec fn spec_parse_tree(content: Seq<u8>) -> Result<Seq<TreeEntryV>, crate::types::ObjError>
    decreases content.len(),
{
    if content.len() == 0 {
        Ok(seq![])
    } else {
        let i = crate::util::first_byte(content, 0);
        if i < 0 {
            Err(crate::types::ObjError::Corrupt)
        } else {
            let head = content.take(i);
            let j = crate::util::first_byte(head, 32);
            if j < 0 {
                Err(crate::types::ObjError::Corrupt)
            } else {
                match mode_of_bytes(head.take(j)) {
                    None => Err(crate::types::ObjError::UnsupportedMode),
                    Some(mode) => {
                        if content.len() < i + 21 {
                            Err(crate::types::ObjError::Corrupt)
                        } else {
                            let e = (TreeEntryV {
                                mode: mode,
                                name: head.skip(j + 1),
                                sha: crate::hashing::hex_of(content.subrange(i + 1, i + 21)),
                            });
                            match spec_parse_tree(content.skip(i + 21)) {
                                Ok(rest) => Ok(seq![e] + rest),
                                Err(er) => Err(er),
                            }
                        }
                    },
                }
            }
        }
    }
}

/// `r` continued with entries already parsed in front.
pub open spec fn prepend_parsed(
    pre: Seq<TreeEntryV>,
    r: Result<Seq<TreeEntryV>, crate::types::ObjError>,
) -> Result<Seq<TreeEntryV>, crate::types::ObjError> {
    match r {
        Ok(s) => Ok(pre + s),
        Err(e) => Err(e),
    }
}

/// Parses the content of a tree object, exactly as `spec_parse_tree` says.
pub fn parse_tree(content: &Vec<u8>) -> (r: Result<Vec<TreeEntry>, crate::types::ObjError>)
    ensures
        r matches Ok(v) ==> spec_parse_tree(content@) == Ok::<
            Seq<TreeEntryV>,
            crate::types::ObjError,
        >(evs(v@)),
        r matches Err(e) ==> spec_parse_tree(content@) == Err::<
            Seq<TreeEntryV>,
            crate::types::ObjError,
        >(e),
{
    let mut acc: Vec<TreeEntry> = Vec::new();
    let mut pos: usize = 0;
    proof {
        assert(content@.skip(0) =~= content@);
        assert(evs(acc@) =~= Seq::<TreeEntryV>::empty());
        match spec_parse_tree(content@) {
            Ok(s) => {
                assert(evs(acc@) + s =~= s);
            },
            Err(_) => {},
        }
    }
    while pos < content.len()
        invariant
            pos <= content@.len(),
            spec_parse_tree(content@) == prepend_parsed(
                evs(acc@),
                spec_parse_tree(content@.skip(pos as int)),
            ),
        decreases content@.len() - pos,
    {
        let ghost suffix = content@.skip(pos as int);
        let inul = match crate::util::find_byte(content, pos, 0) {
            Some(inul) => {
                proof {
                    assert(suffix[inul - pos] == content@[inul as int]);
                    assert(forall|k: int|
                        0 <= k < inul - pos ==> suffix[k] == content@[k + pos]);
                    crate::util::lemma_first_byte_is(suffix, 0, inul - pos);
                }
                inul
            },
            None => {
                proof {
                    assert(forall|k: int|
                        0 <= k < suffix.len() ==> suffix[k] == content@[k + pos]);
                    crate::util::lemma_first_byte_none(suffix, 0);
                }
                return Err(crate::types::ObjError::Corrupt);
            },
        };
        let ghost irel = inul - pos;
        let ghost head = suffix.take(irel as int);
        proof {
            assert(forall|k: int| 0 <= k < head.len() ==> head[k] == content@[k + pos]);
        }
        let jsp = match crate::util::find_byte(content, pos, 32) {
            Some(jsp) => {
                if jsp >= inul {
                    proof {
                        crate::util::lemma_first_byte_none(head, 32);
                    }
                    return Err(crate::types::ObjError::Corrupt);
                }
                proof {
                    crate::util::lemma_first_byte_is(head, 32, jsp - pos);
                }
                jsp
            },
            None => {
                proof {
                    crate::util::lemma_first_byte_none(head, 32);
                }
                return Err(crate::types::ObjError::Corrupt);
            },
        };
        let ghost jrel = jsp - pos;
        let mode_v = crate::util::copy_range(content, pos, jsp);
        proof {
            assert(mode_v@ =~= head.take(jrel as int));
        }
        let mode = match parse_mode(&mode_v) {
            Some(mode) => mode,
            None => {
                return Err(crate::types::ObjError::UnsupportedMode);
            },
        };
        if content.len() - inul < 21 {
            proof {
                assert(suffix.len() < irel + 21);
            }
            return Err(crate::types::ObjError::Corrupt);
        }
        let name_v = crate::util::copy_range(content, jsp + 1, inul);
        let raw = crate::util::copy_range(content, inul + 1, inul + 21);
        let sha_hex = crate::hashing::hex_encode(&raw);
        proof {
            assert(name_v@ =~= head.skip(jrel + 1));
            assert(raw@ =~= suffix.subrange(irel + 1, irel + 21));
        }
        let ghost oldacc = evs(acc@);
        let entry = TreeEntry { mode: mode, name: name_v, object_sha: sha_hex };
        let ghost ev = entry@;
        acc.push(entry);
        proof {
            assert(evs(acc@) =~= oldacc.push(ev));
            assert(content@.skip(inul + 21) =~= suffix.skip(irel + 21));
            match spec_parse_tree(suffix.skip(irel + 21)) {
                Ok(rest) => {
                    assert(spec_parse_tree(suffix) == Ok::<
                        Seq<TreeEntryV>,
                        crate::types::ObjError,
                    >(seq![ev] + rest));
                    assert(oldacc + (seq![ev] + rest) =~= oldacc.push(ev) + rest);
                },
                Err(_) => {},
            }
        }
        pos = inul + 21;
    }
    proof {
        assert(content@.skip(pos as int) =~= Seq::<u8>::empty());
        assert(spec_parse_tree(content@.skip(pos as int)) == Ok::<
            Seq<TreeEntryV>,
            crate::types::ObjError,
        >(Seq::<TreeEntryV>::empty()));
        assert(evs(acc@) + Seq::<TreeEntryV>::empty() =~= evs(acc@));
    }
    Ok(acc)
}

/// Parsing the serialized bytes of one well-formed entry followed by
/// anything consumes the entry and goes on with the rest.
pub proof fn lemma_parse_tree_step(e0: TreeEntryV, tail: Seq<u8>)
    requires
        crate::types::wf_entry(e0),
    ensures
        spec_parse_tree(entry_bytes(e0) + tail) == prepend_parsed(
            seq![e0],
            spec_parse_tree(tail),
        ),
{
    let mb = mode_bytes(e0.mode);
    let raw = crate::hashing::unhex_of(e0.sha);
    let s = entry_bytes(e0) + tail;
    crate::hashing::lemma_unhex_of_len(e0.sha);
    assert(raw.len() == 20);
    let inul = mb.len() + 1 + e0.name.len();
    let eb = entry_bytes(e0);
    assert(eb.len() == inul + 21);
    lemma_mode_bytes_digits(e0.mode);
    assert(s[inul as int] == 0);
    assert forall|k: int| 0 <= k < inul implies s[k] != 0 by {
        if k < mb.len() {
            assert(s[k] == mb[k]);
        } else if k == mb.len() {
            assert(s[k] == 32);
        } else {
            assert(s[k] == e0.name[k - mb.len() - 1]);
        }
    }
    crate::util::lemma_first_byte_is(s, 0, inul as int);
    let head = s.take(inul as int);
    assert(head[mb.len() as int] == 32);
    assert forall|k: int| 0 <= k < mb.len() implies head[k] != 32 by {
        assert(head[k] == mb[k]);
    }
    crate::util::lemma_first_byte_is(head, 32, mb.len() as int);
    assert(head.take(mb.len() as int) =~= mb);
    lemma_mode_of_bytes_of(e0.mode);
    assert(s.len() >= inul + 21);
    assert(head.skip(mb.len() as int + 1) =~= e0.name);
    assert(s.subrange(inul as int + 1, inul as int + 21) =~= raw);
    crate::hashing::lemma_hex_of_unhex_of(e0.sha);
    assert(s.skip(inul as int + 21) =~= tail);
    let e = (TreeEntryV {
        mode: e0.mode,
        name: head.skip(mb.len() as int + 1),
        sha: crate::hashing::hex_of(s.subrange(inul as int + 1, inul as int + 21)),
    });
    assert(e =~= e0);
}

/// Parsing inverts serialization: the serialized bytes of well-formed
/// entries parse back to exactly those entries.
pub proof fn lemma_parse_tree_of_tree_bytes(entries: Seq<TreeEntryV>)
    requires
        forall|k: int| 0 <= k < entries.len() ==> crate::types::wf_entry(#[trigger] entries[k]),
    ensures
        spec_parse_tree(tree_bytes(entries)) == Ok::<Seq<TreeEntryV>, crate::types::ObjError>(
            entries,
        ),
    decreases entries.len(),
{
    if entries.len() == 0 {
        assert(tree_bytes(entries).len() == 0);
        assert(entries =~= Seq::<TreeEntryV>::empty());
    } else {
        let e0 = entries[0];
        let rest = entries.drop_first();
        assert forall|k: int| 0 <= k < rest.len() implies crate::types::wf_entry(
            #[trigger] rest[k],
        ) by {
            assert(rest[k] == entries[k + 1]);
        }
        lemma_parse_tree_of_tree_bytes(rest);
        lemma_parse_tree_step(e0, tree_bytes(rest));
        assert(seq![e0] + rest =~= entries);
    }
}

/// Entries a successful tree parse hands out are well-formed: each name was
/// read up to a NUL, so it holds none, and each digest was hex-encoded from
/// 20 raw bytes.
pub proof fn lemma_parse_tree_wf(content: Seq<u8>)
    requires
        spec_parse_tree(content) is Ok,
    ensures
        forall|k: int|
            0 <= k < spec_parse_tree(content)->Ok_0.len() ==> crate::types::wf_entry(
                #[trigger] spec_parse_tree(content)->Ok_0[k],
            ),
    decreases content.len(),
{
    if content.len() > 0 {
        let i = crate::util::first_byte(content, 0);
        crate::util::lemma_first_byte(content, 0);
        let head = content.take(i);
        let j = crate::util::first_byte(head, 32);
        crate::util::lemma_first_byte(head, 32);
        let name = head.skip(j + 1);
        let sha_raw = content.subrange(i + 1, i + 21);
        let e = spec_parse_tree(content)->Ok_0[0];
        assert(e.name == name);
        assert forall|x: int| 0 <= x < e.name.len() implies #[trigger] e.name[x] != 0 by {
            assert(name[x] == head[x + j + 1]);
            assert(head[x + j + 1] == content[x + j + 1]);
        }
        crate::hashing::lemma_hex_of_len(sha_raw);
        crate::hashing::lemma_hex_of_lower(sha_raw);
        lemma_parse_tree_wf(content.skip(i + 21));
        let rest = spec_parse_tree(content.skip(i + 21))->Ok_0;
        assert forall|k: int|
            0 <= k < spec_parse_tree(content)->Ok_0.len() implies crate::types::wf_entry(
            #[trigger] spec_parse_tree(content)->Ok_0[k],
        ) by {
            if k > 0 {
                assert(spec_parse_tree(content)->Ok_0[k] == rest[k - 1]);
            }
        }
    }
}

/// Decoding a truncated tree object fails as corrupt: serialized entries
/// followed by one further entry head whose 20 digest bytes are cut short
/// parse to no tree and no wrong digest, only to the truncation error.
pub proof fn lemma_parse_tree_truncated(
    entries: Seq<TreeEntryV>,
    m: TreeEntryMode,
    name: Seq<u8>,
    partial: Seq<u8>,
)
    requires
        forall|k: int| 0 <= k < entries.len() ==> crate::types::wf_entry(#[trigger] entries[k]),
        forall|i: int| 0 <= i < name.len() ==> #[trigger] name[i] != 0,
        partial.len() < 20,
    ensures
        spec_parse_tree(
            tree_bytes(entries) + (mode_bytes(m) + seq![32u8] + name + seq![0u8]) + partial,
        ) == Err::<Seq<TreeEntryV>, crate::types::ObjError>(crate::types::ObjError::Corrupt),
    decreases entries.len(),
{
    let headb = mode_bytes(m) + seq![32u8] + name + seq![0u8];
    if entries.len() == 0 {
        let s = tree_bytes(entries) + headb + partial;
        let mb = mode_bytes(m);
        let inul = mb.len() + 1 + name.len();
        lemma_mode_bytes_digits(m);
        assert(s[inul as int] == 0);
        assert forall|k: int| 0 <= k < inul implies s[k] != 0 by {
            if k < mb.len() {
                assert(s[k] == mb[k]);
            } else if k == mb.len() {
                assert(s[k] == 32);
            } else {
                assert(s[k] == name[k - mb.len() - 1]);
            }
        }
        crate::util::lemma_first_byte_is(s, 0, inul as int);
        let head = s.take(inul as int);
        assert(head[mb.len() as int] == 32);
        assert forall|k: int| 0 <= k < mb.len() implies head[k] != 32 by {
            assert(head[k] == mb[k]);
        }
        crate::util::lemma_first_byte_is(head, 32, mb.len() as int);
        assert(head.take(mb.len() as int) =~= mb);
        lemma_mode_of_bytes_of(m);
        assert(s.len() == inul + 1 + partial.len());
        assert(s.len() < inul + 21);
    } else {
        let e0 = entries[0];
        let rest = entries.drop_first();
        assert forall|k: int| 0 <= k < rest.len() implies crate::types::wf_entry(
            #[trigger] rest[k],
        ) by {
            assert(rest[k] == entries[k + 1]);
        }
        lemma_parse_tree_truncated(rest, m, name, partial);
        lemma_parse_tree_step(e0, tree_bytes(rest) + headb + partial);
        assert(tree_bytes(entries) + headb + partial =~= entry_bytes(e0) + (tree_bytes(rest)
            + headb + partial));
    }
}

/// Building a tree is invariant to the order entries were collected in: two
/// collections with the same entries sort to the same sequence and serialize
/// to the same bytes.
pub proof fn lemma_tree_order_invariant(e1: Seq<TreeEntryV>, e2: Seq<TreeEntryV>)
    requires
        e1.to_multiset() == e2.to_multiset(),
    ensures
        e1.sort_by(entry_leq()) == e2.sort_by(entry_leq()),
        tree_bytes(e1.sort_by(entry_leq())) == tree_bytes(e2.sort_by(entry_leq())),
{
    lemma_entry_le_total_ordering();
    e1.lemma_sort_by_ensures(entry_leq());
    e2.lemma_sort_by_ensures(entry_leq());
    lemma_sorted_unique(e1.sort_by(entry_leq()), e2.sort_by(entry_leq()), entry_leq());
}

} // verus!
