//! Chunked deltas between two versions of one file, and the reconstruction of
//! the new version from the old one and its deltas.
use vstd::prelude::*;
use crate::codec::{apply, create, decode_spec, encodable_len, lemma_window_accepted, window_fits, CodecError};

verus! {

/// Size in bytes of the windows that files are compared and encoded in. It is
/// not recorded in the patch: creation and application must use the same value.
pub const CHUNK_SIZE: usize = 0x77777777;

/// Smaller of `a` and `b`.
pub open spec fn min(a: int, b: int) -> int {
    if a < b {
        a
    } else {
        b
    }
}

/// Number of chunks an old file of `m` bytes is compared in: at least one.
pub open spec fn chunk_count(m: nat, c: nat) -> nat {
    if m == 0 {
        1
    } else {
        ((m - 1) as nat / c) + 1
    }
}

/// Chunk `i` (numbered from 1) of the old file: at most `c` bytes from offset `(i - 1) * c`.
pub open spec fn old_chunk(old: Seq<u8>, i: nat, c: nat) -> Seq<u8> {
    old.subrange(min((i - 1) * c, old.len() as int), min((i * c) as int, old.len() as int))
}

/// Chunk `i` of the new file. The last chunk of the old file is matched with
/// everything that is left of the new file, so that growth lands in it.
pub open spec fn new_chunk(m: nat, new: Seq<u8>, i: nat, c: nat) -> Seq<u8> {
    let start = min((i - 1) * c, new.len() as int);
    if i < chunk_count(m, c) {
        new.subrange(start, min((i * c) as int, new.len() as int))
    } else {
        new.subrange(start, new.len() as int)
    }
}

/// The indices of the chunks, from chunk `i` onward, whose old and new bytes
/// differ, in increasing order: those `diff_file` emits a delta for.
pub open spec fn plan_indices(old: Seq<u8>, new: Seq<u8>, c: nat, i: nat) -> Seq<u64>
    decreases chunk_count(old.len(), c) + 1 - i,
{
    if i == 0 || c == 0 || i > chunk_count(old.len(), c) {
        Seq::empty()
    } else {
        let rest = plan_indices(old, new, c, i + 1);
        if old_chunk(old, i, c) == new_chunk(old.len(), new, i, c) {
            rest
        } else {
            seq![i as u64] + rest
        }
    }
}

/// The delta of one chunk of a file.
#[derive(Debug, Clone, PartialEq, Eq)]
pub struct ChunkDelta {
    /// Chunk number, from 1.
    pub index: u64,
    /// Encoded new bytes of the chunk, against its old bytes.
    pub delta: Vec<u8>,
}

impl View for ChunkDelta {
    type V = (u64, Seq<u8>);

    open spec fn view(&self) -> (u64, Seq<u8>) {
        (self.index, self.delta@)
    }
}

/// The views of a sequence of chunk deltas.
pub open spec fn deltas_view(v: Seq<ChunkDelta>) -> Seq<(u64, Seq<u8>)> {
    v.map_values(|d: ChunkDelta| d@)
}

/// Whether `a` and `b` hold the same bytes.
pub fn bytes_equal(a: &[u8], b: &[u8]) -> (r: bool)
    ensures
        r == (a@ == b@),
{
    if a.len() != b.len() {
        return false;
    }
    let mut i: usize = 0;
    while i < a.len()
        invariant
            a@.len() == b@.len(),
            i <= a@.len(),
            forall|j: int| 0 <= j < i ==> a@[j] == b@[j],
        decreases a@.len() - i,
    {
        if a[i] != b[i] {
            return false;
        }
        i = i + 1;
    }
    assert(a@ =~= b@);
    true
}

/// Appends the bytes of `src` to `out`.
pub fn append_bytes(out: &mut Vec<u8>, src: &[u8])
    ensures
        final(out)@ == old(out)@ + src@,
{
    let mut i: usize = 0;
    while i < src.len()
        invariant
            i <= src@.len(),
            out@ == old(out)@ + src@.subrange(0, i as int),
        decreases src@.len() - i,
    {
        out.push(src[i]);
        i = i + 1;
        assert(out@ =~= old(out)@ + src@.subrange(0, i as int));
    }
    assert(src@.subrange(0, src@.len() as int) =~= src@);
}

proof fn lemma_chunk_bounds(m: nat, c: nat, i: nat)
    requires
        m > 0,
        c > 0,
        1 <= i <= chunk_count(m, c),
    ensures
        (i - 1) * c < m,
        i < chunk_count(m, c) ==> i * c < m,
        i == chunk_count(m, c) ==> m <= i * c,
{
    let q = (m - 1) as nat / c;
    let r = (m - 1) as nat % c;
    assert((m - 1) as nat == q * c + r && r < c) by {
        vstd::arithmetic::div_mod::lemma_fundamental_div_mod((m - 1) as int, c as int);
    }
    assert((i - 1) * c <= q * c) by (nonlinear_arith)
        requires i - 1 <= q, c > 0;
    if i < chunk_count(m, c) {
        assert(i * c <= q * c) by (nonlinear_arith)
            requires i <= q, c > 0;
    }
    if i == chunk_count(m, c) {
        assert(i * c == q * c + c) by (nonlinear_arith)
            requires i == q + 1;
    }
}

/// Whether the entries of `d` have strictly increasing indices, all at least 1.
pub open spec fn ascending_indices(d: Seq<(u64, Seq<u8>)>) -> bool {
    &&& forall|j: int| 0 <= j < d.len() ==> d[j].0 >= 1
    &&& forall|j: int, l: int| 0 <= j < l < d.len() ==> d[j].0 < d[l].0
}

/// The chunk indices of the deltas `d`.
pub open spec fn indices(d: Seq<(u64, Seq<u8>)>) -> Seq<u64> {
    d.map_values(|e: (u64, Seq<u8>)| e.0)
}

/// Whether the indices `s` are all at least 1 and strictly increase.
pub open spec fn ascending(s: Seq<u64>) -> bool {
    &&& forall|j: int| 0 <= j < s.len() ==> s[j] >= 1
    &&& forall|j: int, l: int| 0 <= j < l < s.len() ==> s[j] < s[l]
}

/// Each delta of `d` decodes, against the old chunk at its index, to the new
/// chunk at that index.
pub open spec fn deltas_correct(old: Seq<u8>, new: Seq<u8>, c: nat, d: Seq<(u64, Seq<u8>)>) -> bool {
    forall|j: int|
        0 <= j < d.len() ==> decode_spec(old_chunk(old, #[trigger] d[j].0 as nat, c), d[j].1)
            == Some(new_chunk(old.len(), new, d[j].0 as nat, c))
}

proof fn lemma_ascending_indices(d: Seq<(u64, Seq<u8>)>)
    requires
        ascending(indices(d)),
    ensures
        ascending_indices(d),
{
    assert forall|j: int| 0 <= j < d.len() implies d[j].0 >= 1 by {
        assert(indices(d)[j] == d[j].0);
    }
    assert forall|j: int, l: int| 0 <= j < l < d.len() implies d[j].0 < d[l].0 by {
        assert(indices(d)[j] == d[j].0);
        assert(indices(d)[l] == d[l].0);
    }
}

proof fn lemma_plan_entries(old: Seq<u8>, new: Seq<u8>, c: nat, i: nat)
    requires
        c > 0,
        i >= 1,
        old.len() <= u64::MAX,
    ensures
        ascending(plan_indices(old, new, c, i)),
        forall|j: int|
            0 <= j < plan_indices(old, new, c, i).len() ==> {
                let e = #[trigger] plan_indices(old, new, c, i)[j];
                &&& i <= e <= chunk_count(old.len(), c)
                &&& old_chunk(old, e as nat, c) != new_chunk(old.len(), new, e as nat, c)
            },
    decreases chunk_count(old.len(), c) + 1 - i,
{
    let k = chunk_count(old.len(), c);
    if i <= k {
        lemma_plan_entries(old, new, c, i + 1);
        assert(k <= u64::MAX) by {
            if old.len() > 0 {
                vstd::arithmetic::div_mod::lemma_div_is_ordered_by_denominator((old.len() - 1) as int, 1, c as int);
            }
        }
    }
}

proof fn lemma_same_chunk(old: Seq<u8>, c: nat, i: nat)
    requires
        c > 0,
        1 <= i <= chunk_count(old.len(), c),
    ensures
        old_chunk(old, i, c) == new_chunk(old.len(), old, i, c),
{
    if old.len() > 0 {
        lemma_chunk_bounds(old.len(), c, i);
    }
}

/// Encodes the chunks in which `new` differs from `old`, each against the old
/// chunk at the same index. Identical chunks give no delta at all, so a file
/// that did not change gives none. Each delta decodes back to its new chunk,
/// and encoding fails only where zstd refuses the window, which never happens
/// on a 64-bit target.
pub fn diff_file(old: &[u8], new: &[u8], lvl: i32, chunk_size: usize) -> (r: Result<Vec<ChunkDelta>, CodecError>)
    requires
        chunk_size > 0,
        encodable_len(new@.len()),
    ensures
        window_fits(old@.len()) ==> r is Ok,
        r matches Ok(v) ==> indices(deltas_view(v@)) == plan_indices(old@, new@, chunk_size as nat, 1),
        r matches Ok(v) ==> deltas_correct(old@, new@, chunk_size as nat, deltas_view(v@)),
        r matches Ok(v) ==> ascending_indices(deltas_view(v@)),
        r matches Ok(v) ==> forall|j: int|
            0 <= j < v@.len() ==> old_chunk(old@, #[trigger] v@[j].index as nat, chunk_size as nat)
                != new_chunk(old@.len(), new@, v@[j].index as nat, chunk_size as nat),
        r is Err ==> plan_indices(old@, new@, chunk_size as nat, 1).len() > 0,
        old@ == new@ ==> (r matches Ok(v) && v@.len() == 0),
{
    let ghost c = chunk_size as nat;
    let m = old.len();
    let n = new.len();
    let k: usize = if m == 0 {
        1
    } else {
        (m - 1) / chunk_size + 1
    };
    let mut out: Vec<ChunkDelta> = Vec::new();
    let mut done: usize = 0;
    let mut start: usize = 0;
    while done < k
        invariant
            k == chunk_count(m as nat, c),
            m == old@.len(),
            n == new@.len(),
            c == chunk_size,
            c > 0,
            done <= k,
            done < k ==> start == done * c,
            indices(deltas_view(out@)) + plan_indices(old@, new@, c, (done + 1) as nat) == plan_indices(old@, new@, c, 1),
            deltas_correct(old@, new@, c, deltas_view(out@)),
            encodable_len(new@.len()),
            old@ == new@ ==> out@.len() == 0,
        decreases k - done,
    {
        let i = done + 1;
        proof {
            if m > 0 {
                lemma_chunk_bounds(m as nat, c, i as nat);
            }
            assert(i * c == (i - 1) * c + c) by (nonlinear_arith);
            assert(0 * c == 0);
        }
        let end: usize = if m - start <= chunk_size {
            m
        } else {
            start + chunk_size
        };
        let ns: usize = if start < n {
            start
        } else {
            n
        };
        let ne: usize = if i < k {
            if end < n {
                end
            } else {
                n
            }
        } else {
            n
        };
        let o = vstd::slice::slice_subrange(old, start, end);
        let nw = vstd::slice::slice_subrange(new, ns, ne);
        assert(o@ == old_chunk(old@, i as nat, c));
        assert(nw@ == new_chunk(m as nat, new@, i as nat, c));
        proof {
            if old@ == new@ {
                lemma_same_chunk(old@, c, i as nat);
            }
        }
        proof {
            if window_fits(old@.len()) {
                lemma_window_accepted(o@.len());
            }
        }
        if !bytes_equal(o, nw) {
            match create(o, nw, lvl) {
                Ok(d) => {
                    let ghost before = out@;
                    out.push(ChunkDelta { index: i as u64, delta: d });
                    assert(deltas_view(out@) =~= deltas_view(before).push((i as u64, d@)));
                    assert(indices(deltas_view(out@)) =~= indices(deltas_view(before)).push(i as u64));
                    assert(indices(deltas_view(out@)) + plan_indices(old@, new@, c, (i + 1) as nat)
                        =~= indices(deltas_view(before)) + plan_indices(old@, new@, c, i as nat));
                    assert forall|j: int| 0 <= j < deltas_view(out@).len() implies decode_spec(
                        old_chunk(old@, #[trigger] deltas_view(out@)[j].0 as nat, c), deltas_view(out@)[j].1)
                        == Some(new_chunk(old@.len(), new@, deltas_view(out@)[j].0 as nat, c)) by {
                        if j < before.len() {
                            assert(deltas_view(out@)[j] == deltas_view(before)[j]);
                        }
                    }
                },
                Err(e) => {
                    assert(plan_indices(old@, new@, c, i as nat).len() > 0);
                    return Err(e);
                },
            }
        }
        done = i;
        start = end;
    }
    proof {
        lemma_plan_entries(old@, new@, c, 1);
        assert(indices(deltas_view(out@)) =~= plan_indices(old@, new@, c, 1));
        lemma_ascending_indices(deltas_view(out@));
        assert forall|j: int| 0 <= j < out@.len() implies old_chunk(old@, #[trigger] out@[j].index as nat, c)
            != new_chunk(old@.len(), new@, out@[j].index as nat, c) by {
            assert(deltas_view(out@)[j] == out@[j]@);
            assert(indices(deltas_view(out@))[j] == out@[j].index);
        }
    }
    Ok(out)
}

/// What `rebuild_file` produces from the deltas `d`, the next chunk to be
/// taken from the old file being chunk `j`: the old chunks before each delta's
/// index copied as they are, each delta decoded against its own old chunk (or
/// nothing where that fails), then the rest of the old file. The flag tells
/// whether every delta decoded.
pub open spec fn rebuilt(old: Seq<u8>, d: Seq<(u64, Seq<u8>)>, c: nat, j: nat) -> (Seq<u8>, bool)
    decreases d.len(),
{
    let m = old.len() as int;
    if d.len() == 0 {
        (old.subrange(min((j - 1) * c, m), m), true)
    } else {
        let i = d[0].0 as nat;
        let gap = old.subrange(min((j - 1) * c, m), min((i - 1) * c, m));
        let dec = decode_spec(old_chunk(old, i, c), d[0].1);
        let rest = rebuilt(old, d.drop_first(), c, i + 1);
        let piece = if dec is Some {
            dec->0
        } else {
            Seq::empty()
        };
        (gap + piece + rest.0, dec is Some && rest.1)
    }
}

/// The part of the new file from chunk `j` on.
pub open spec fn new_from(m: nat, new: Seq<u8>, j: nat, c: nat) -> Seq<u8> {
    if j > chunk_count(m, c) {
        Seq::empty()
    } else {
        new.subrange(min((j - 1) * c, new.len() as int), new.len() as int)
    }
}

proof fn lemma_equal_run(old: Seq<u8>, new: Seq<u8>, c: nat, j: nat, jp: nat)
    requires
        c > 0,
        1 <= j <= jp <= chunk_count(old.len(), c),
        forall|l: nat| j <= l < jp ==> #[trigger] old_chunk(old, l, c) == new_chunk(old.len(), new, l, c),
    ensures
        old.subrange(min((j - 1) * c, old.len() as int), min((jp - 1) * c, old.len() as int))
            == new.subrange(min((j - 1) * c, new.len() as int), min((jp - 1) * c, new.len() as int)),
        (jp - 1) * c <= new.len() || jp == j,
    decreases jp - j,
{
    let m = old.len() as int;
    let n = new.len() as int;
    if jp > j {
        let l = (jp - 1) as nat;
        lemma_equal_run(old, new, c, j, l);
        lemma_chunk_bounds(old.len(), c, l);
        assert(l * c == (l - 1) * c + c) by (nonlinear_arith);
        assert((j - 1) * c <= (l - 1) * c) by (nonlinear_arith)
            requires j <= l;
        assert(old_chunk(old, l, c) == new_chunk(old.len(), new, l, c));
        assert(n >= l * c);
        let a = min((j - 1) * c, m);
        let a2 = min((j - 1) * c, n);
        assert(old.subrange(a, (l - 1) * c) + old.subrange((l - 1) * c, (l * c) as int) =~= old.subrange(a, (l * c) as int));
        assert(new.subrange(a2, (l - 1) * c) + new.subrange((l - 1) * c, (l * c) as int) =~= new.subrange(a2, (l * c) as int));
    } else {
        assert(old.subrange(min((j - 1) * c, m), min((jp - 1) * c, m)) =~= Seq::<u8>::empty());
        assert(new.subrange(min((j - 1) * c, n), min((jp - 1) * c, n)) =~= Seq::<u8>::empty());
    }
}

proof fn lemma_equal_tail(old: Seq<u8>, new: Seq<u8>, c: nat, j: nat)
    requires
        c > 0,
        1 <= j <= chunk_count(old.len(), c) + 1,
        forall|l: nat| j <= l <= chunk_count(old.len(), c) ==> #[trigger] old_chunk(old, l, c) == new_chunk(old.len(), new, l, c),
    ensures
        old.subrange(min((j - 1) * c, old.len() as int), old.len() as int) == new_from(old.len(), new, j, c),
{
    let m = old.len() as int;
    let n = new.len() as int;
    let k = chunk_count(old.len(), c);
    if m > 0 {
        lemma_chunk_bounds(old.len(), c, k);
    }
    if j == k + 1 {
        assert(old.subrange(min((j - 1) * c, m), m) =~= Seq::<u8>::empty());
    } else {
        lemma_equal_run(old, new, c, j, k);
        assert(old_chunk(old, k, c) == new_chunk(old.len(), new, k, c));
        assert((j - 1) * c <= (k - 1) * c) by (nonlinear_arith)
            requires j <= k;
        let a = min((j - 1) * c, m);
        let a2 = min((j - 1) * c, n);
        let b = min((k - 1) * c, m);
        let b2 = min((k - 1) * c, n);
        assert(min((k as int) * c, m) == m);
        assert(old.subrange(a, b) + old.subrange(b, m) =~= old.subrange(a, m));
        assert(new.subrange(a2, b2) + new.subrange(b2, n) =~= new.subrange(a2, n));
    }
}

proof fn lemma_round_trip_from(old: Seq<u8>, new: Seq<u8>, c: nat, j: nat, jp: nat, d: Seq<(u64, Seq<u8>)>)
    requires
        c > 0,
        old.len() <= u64::MAX,
        1 <= j <= jp <= chunk_count(old.len(), c) + 1,
        forall|l: nat| j <= l < jp ==> #[trigger] old_chunk(old, l, c) == new_chunk(old.len(), new, l, c),
        indices(d) == plan_indices(old, new, c, jp),
        deltas_correct(old, new, c, d),
    ensures
        rebuilt(old, d, c, j) == (new_from(old.len(), new, j, c), true),
    decreases chunk_count(old.len(), c) + 1 - jp,
{
    let k = chunk_count(old.len(), c);
    let m = old.len() as int;
    let n = new.len() as int;
    let plan = plan_indices(old, new, c, jp);
    assert(indices(d).len() == d.len());
    if jp > k {
        assert(d.len() == 0);
        lemma_equal_tail(old, new, c, j);
    } else {
        let o = old_chunk(old, jp, c);
        let nw = new_chunk(old.len(), new, jp, c);
        let rest = plan_indices(old, new, c, jp + 1);
        if o == nw {
            assert(plan == rest);
            lemma_round_trip_from(old, new, c, j, jp + 1, d);
        } else {
            assert(k <= u64::MAX) by {
                if old.len() > 0 {
                    vstd::arithmetic::div_mod::lemma_div_is_ordered_by_denominator((old.len() - 1) as int, 1, c as int);
                }
            }
            assert(plan == seq![jp as u64] + rest);
            assert(d.len() > 0);
            assert(indices(d)[0] == d[0].0);
            assert(d[0].0 as nat == jp);
            let dr = d.drop_first();
            assert(indices(dr) =~= indices(d).drop_first());
            assert(indices(d).drop_first() =~= rest);
            assert forall|q: int| 0 <= q < dr.len() implies decode_spec(old_chunk(old, #[trigger] dr[q].0 as nat, c), dr[q].1)
                == Some(new_chunk(old.len(), new, dr[q].0 as nat, c)) by {
                assert(dr[q] == d[q + 1]);
            }
            lemma_round_trip_from(old, new, c, jp + 1, jp + 1, dr);
            assert(decode_spec(o, d[0].1) == Some(nw));
            lemma_equal_run(old, new, c, j, jp);
            if m > 0 {
                lemma_chunk_bounds(old.len(), c, jp);
            }
            assert((j - 1) * c <= (jp - 1) * c) by (nonlinear_arith)
                requires j <= jp;
            assert(jp * c == (jp - 1) * c + c) by (nonlinear_arith);
            assert((jp - 1) * c >= 0) by (nonlinear_arith)
                requires jp >= 1;
            let a2 = min((j - 1) * c, n);
            let b2 = min((jp - 1) * c, n);
            let e2 = if jp < k { min((jp * c) as int, n) } else { n };
            assert(new.subrange(a2, b2) + new.subrange(b2, e2) + new_from(old.len(), new, jp + 1, c)
                =~= new.subrange(a2, n));
        }
    }
}

/// A file rebuilt from its old version and its chunk deltas.
#[derive(Debug, Clone, PartialEq, Eq)]
pub struct Rebuilt {
    /// The bytes of the new version.
    pub data: Vec<u8>,
    /// Whether every delta decoded; where one did not, its chunk is missing.
    pub complete: bool,
}

/// A chunk delta whose index is 0 or not above the index of the one before it.
#[derive(Debug, Clone, Copy, PartialEq, Eq, Structural)]
pub struct ChunkOrderError {
    /// The offending index.
    pub index: u64,
}

/// Whether delta `t` of `d` is the first whose index is 0 or not above the
/// index of the one before it.
pub open spec fn first_out_of_order(d: Seq<(u64, Seq<u8>)>, t: int) -> bool {
    &&& 0 <= t < d.len()
    &&& if t == 0 {
        d[0].0 == 0
    } else {
        d[t].0 <= d[t - 1].0
    }
    &&& ascending_indices(d.subrange(0, t))
}

/// Checks that the indices of `deltas` start at 1 or above and strictly increase.
pub fn check_chunk_order(deltas: &[ChunkDelta]) -> (r: Result<(), ChunkOrderError>)
    ensures
        r is Ok <==> ascending_indices(deltas_view(deltas@)),
        r matches Err(e) ==> exists|t: int| first_out_of_order(deltas_view(deltas@), t) && e.index == deltas_view(deltas@)[t].0,
{
    let ghost dv = deltas_view(deltas@);
    let mut prev: u64 = 0;
    let mut t: usize = 0;
    while t < deltas.len()
        invariant
            dv == deltas_view(deltas@),
            t <= deltas@.len(),
            forall|j: int| 0 <= j < t ==> dv[j].0 >= 1,
            forall|j: int, l: int| 0 <= j < l < t ==> dv[j].0 < dv[l].0,
            t > 0 ==> prev == dv[t - 1].0,
            t == 0 ==> prev == 0,
        decreases deltas@.len() - t,
    {
        let i = deltas[t].index;
        assert(dv[t as int].0 == i);
        if i <= prev {
            assert(ascending_indices(dv.subrange(0, t as int)));
            assert(first_out_of_order(dv, t as int));
            return Err(ChunkOrderError { index: i });
        }
        prev = i;
        t = t + 1;
    }
    Ok(())
}

/// Byte offset in a file of `m` bytes at which chunk `i` starts, or `m` past the end.
fn chunk_start(i: u64, m: usize, chunk_size: usize) -> (r: usize)
    requires
        i >= 1,
    ensures
        r == min((i - 1) * chunk_size, m as int),
{
    let a: u128 = (i - 1) as u128;
    let b: u128 = chunk_size as u128;
    assert(a * b <= u128::MAX) by (nonlinear_arith)
        requires
            a <= 0xffff_ffff_ffff_ffffu128,
            b <= 0xffff_ffff_ffff_ffffu128,
    ;
    let q: u128 = a * b;
    if q >= m as u128 {
        m
    } else {
        q as usize
    }
}

/// Rebuilds the new version of a file from its old version and its chunk
/// deltas: chunks without a delta are copied from the old version, each delta
/// is decoded against the old chunk at its index, and the old bytes after the
/// last delta are copied at the end. A delta that does not decode leaves its
/// chunk out and clears `complete`. Applied to the deltas that `diff_file`
/// made from the old and a new version, it gives back the new version.
pub fn rebuild_file(old: &[u8], deltas: &[ChunkDelta], chunk_size: usize) -> (r: Result<Rebuilt, ChunkOrderError>)
    requires
        chunk_size > 0,
    ensures
        r is Ok <==> ascending_indices(deltas_view(deltas@)),
        r matches Err(e) ==> exists|t: int| first_out_of_order(deltas_view(deltas@), t) && e.index == deltas_view(deltas@)[t].0,
        r matches Ok(b) ==> (b.data@, b.complete) == rebuilt(old@, deltas_view(deltas@), chunk_size as nat, 1),
        forall|new: Seq<u8>|
            #[trigger] plan_indices(old@, new, chunk_size as nat, 1) == indices(deltas_view(deltas@))
                && deltas_correct(old@, new, chunk_size as nat, deltas_view(deltas@))
                ==> r is Ok && r->Ok_0.data@ == new && r->Ok_0.complete,
{
    let ghost c = chunk_size as nat;
    let ghost dv = deltas_view(deltas@);
    let m = old.len();
    match check_chunk_order(deltas) {
        Ok(()) => {},
        Err(e) => {
            proof {
                assert forall|new: Seq<u8>| #[trigger] plan_indices(old@, new, c, 1) != indices(dv) by {
                    lemma_plan_entries(old@, new, c, 1);
                    if plan_indices(old@, new, c, 1) == indices(dv) {
                        lemma_ascending_indices(dv);
                    }
                }
            }
            return Err(e);
        },
    }
    let mut out: Vec<u8> = Vec::new();
    assert(dv.subrange(0, dv.len() as int) =~= dv);
    let mut complete = true;
    let mut pos: usize = 0;
    let ghost mut j: nat = 1;
    let mut t: usize = 0;
    while t < deltas.len()
        invariant
            dv == deltas_view(deltas@),
            ascending_indices(dv),
            c == chunk_size,
            c > 0,
            m == old@.len(),
            t <= dv.len(),
            j >= 1,
            t > 0 ==> j == dv[t - 1].0 + 1,
            t == 0 ==> j == 1,
            pos == min((j - 1) * c, m as int),
            out@ + rebuilt(old@, dv.subrange(t as int, dv.len() as int), c, j).0 == rebuilt(old@, dv, c, 1).0,
            (complete && rebuilt(old@, dv.subrange(t as int, dv.len() as int), c, j).1) == rebuilt(old@, dv, c, 1).1,
        decreases dv.len() - t,
    {
        let ghost rest = dv.subrange(t as int, dv.len() as int);
        let i = deltas[t].index;
        assert(dv[t as int] == deltas@[t as int]@);
        assert(rest[0] == dv[t as int]);
        assert(i >= j) by {
            if t > 0 {
                assert(dv[t - 1].0 < dv[t as int].0);
            }
        }
        assert((j - 1) * c <= (i - 1) * c) by (nonlinear_arith)
            requires j <= i;
        let gs = chunk_start(i, m, chunk_size);
        let ce: usize = if m - gs <= chunk_size {
            m
        } else {
            gs + chunk_size
        };
        assert(i * c == (i - 1) * c + c) by (nonlinear_arith);
        let gap = vstd::slice::slice_subrange(old, pos, gs);
        let chunk = vstd::slice::slice_subrange(old, gs, ce);
        assert(chunk@ == old_chunk(old@, i as nat, c));
        let ghost before = out@;
        append_bytes(&mut out, gap);
        let decoded = apply(chunk, deltas[t].delta.as_slice());
        match decoded {
            Ok(v) => {
                append_bytes(&mut out, v.as_slice());
            },
            Err(()) => {
                complete = false;
            },
        }
        proof {
            assert(rest.drop_first() =~= dv.subrange(t + 1, dv.len() as int));
            let dec = decode_spec(old_chunk(old@, i as nat, c), dv[t as int].1);
            let piece = if dec is Some { dec->0 } else { Seq::<u8>::empty() };
            assert(out@ =~= before + gap@ + piece);
            let r2 = rebuilt(old@, dv.subrange(t + 1, dv.len() as int), c, (i + 1) as nat);
            assert(rebuilt(old@, rest, c, j).0 =~= gap@ + piece + r2.0);
            assert(out@ + r2.0 =~= before + rebuilt(old@, rest, c, j).0);
        }
        pos = ce;
        t = t + 1;
        proof {
            j = (i + 1) as nat;
            assert(min((i as int) * c, m as int) == ce);
        }
    }
    proof {
        assert(dv.subrange(t as int, dv.len() as int) =~= Seq::<(u64, Seq<u8>)>::empty());
    }
    let tail = vstd::slice::slice_subrange(old, pos, m);
    append_bytes(&mut out, tail);
    proof {
        assert forall|new: Seq<u8>|
            #[trigger] plan_indices(old@, new, c, 1) == indices(dv) && deltas_correct(old@, new, c, dv)
                implies out@ == new && complete by {
            lemma_round_trip_from(old@, new, c, 1, 1, dv);
            assert(0 * c == 0);
            assert(new.subrange(0, new.len() as int) =~= new);
        }
    }
    Ok(Rebuilt { data: out, complete })
}

} // verus!
