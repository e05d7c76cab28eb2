//! Names inside the patch artifact: the three top-level categories, the names
//! of chunk-delta entries, the removal list, and the reserved backup directory.
use vstd::prelude::*;
use vstd::utf8::encode_utf8;

verus! {

/// Whether `pat` occurs in `s` at offset `p`.
pub open spec fn occurs_at(s: Seq<u8>, pat: Seq<u8>, p: int) -> bool {
    0 <= p && p + pat.len() <= s.len() && s.subrange(p, p + pat.len()) == pat
}

/// Whether `pat` occurs anywhere in `s`.
pub open spec fn occurs_in(s: Seq<u8>, pat: Seq<u8>) -> bool {
    exists|p: int| occurs_at(s, pat, p)
}

/// Whether `pat` occurs in `s` at offset `p`.
pub fn occurs_at_exec(s: &[u8], pat: &[u8], p: usize) -> (r: bool)
    ensures
        r == occurs_at(s@, pat@, p as int),
{
    let n = s.len();
    if p > n || pat.len() > n - p {
        return false;
    }
    let mut i: usize = 0;
    while i < pat.len()
        invariant
            n == s@.len(),
            p + pat@.len() <= s@.len(),
            i <= pat@.len(),
            forall|j: int| 0 <= j < i ==> s@[p + j] == pat@[j],
        decreases pat@.len() - i,
    {
        if s[p + i] != pat[i] {
            assert(s@.subrange(p as int, p + pat@.len())[i as int] != pat@[i as int]);
            return false;
        }
        i = i + 1;
    }
    assert(s@.subrange(p as int, p + pat@.len()) =~= pat@);
    true
}

/// The bytes of `.patchiniored`, the name of the engine's working directory.
pub open spec fn work_dir_name() -> Seq<u8> {
    seq![46u8, 112u8, 97u8, 116u8, 99u8, 104u8, 105u8, 110u8, 105u8, 111u8, 114u8, 101u8, 100u8]
}

/// The bytes of `.zspatch`, which separates a path from a chunk index.
pub open spec fn delta_mark() -> Seq<u8> {
    seq![46u8, 122u8, 115u8, 112u8, 97u8, 116u8, 99u8, 104u8]
}

/// The top-level name of the subtree of added files.
pub open spec fn added_category() -> Seq<u8> {
    seq![110u8, 101u8, 119u8, 95u8, 102u8, 105u8, 108u8, 101u8, 115u8]
}

/// The top-level name of the subtree of chunk deltas.
pub open spec fn diff_category() -> Seq<u8> {
    seq![100u8, 105u8, 102u8, 102u8, 95u8, 102u8, 105u8, 108u8, 101u8, 115u8]
}

/// The top-level name of the list of removed files.
pub open spec fn removal_category() -> Seq<u8> {
    seq![114u8, 109u8, 95u8, 102u8, 105u8, 108u8, 101u8, 115u8, 46u8, 116u8, 120u8, 116u8]
}

/// Name of the subtree of added files.
pub const ADDED_DIR: &'static str = "new_files";
/// Name of the subtree of chunk deltas.
pub const DIFF_DIR: &'static str = "diff_files";
/// Name of the list of removed files.
pub const REMOVAL_LIST: &'static str = "rm_files.txt";
/// File name of the artifact a creation run writes.
pub const ARTIFACT_NAME: &'static str = "patch.patchini";
/// Working directory in which a creation run stages the artifact's content.
pub const STAGING_DIR: &'static str = ".patchiniored";
/// Backup directory of an application run, under the target root.
pub const BACKUP_DIR: &'static str = "backup";

/// The bytes of `backup`, the name of the engine's backup directory.
pub open spec fn backup_dir_name() -> Seq<u8> {
    seq![98u8, 97u8, 99u8, 107u8, 117u8, 112u8]
}

fn work_dir_name_bytes() -> (r: Vec<u8>)
    ensures
        r@ == work_dir_name(),
{
    let r = vec![46u8, 112u8, 97u8, 116u8, 99u8, 104u8, 105u8, 110u8, 105u8, 111u8, 114u8, 101u8, 100u8];
    assert(r@ =~= work_dir_name());
    r
}

fn backup_dir_name_bytes() -> (r: Vec<u8>)
    ensures
        r@ == backup_dir_name(),
{
    let r = vec![98u8, 97u8, 99u8, 107u8, 117u8, 112u8];
    assert(r@ =~= backup_dir_name());
    r
}

fn delta_mark_bytes() -> (r: Vec<u8>)
    ensures
        r@ == delta_mark(),
{
    let r = vec![46u8, 122u8, 115u8, 112u8, 97u8, 116u8, 99u8, 104u8];
    assert(r@ =~= delta_mark());
    r
}

/// Whether `name` is the component of the `/`-separated path `s` that starts
/// at offset `a`.
pub open spec fn component_at(s: Seq<u8>, name: Seq<u8>, a: int) -> bool {
    &&& a == 0 || (0 < a <= s.len() && s[a - 1] == 47u8)
    &&& occurs_at(s, name, a)
    &&& a + name.len() == s.len() || s[a + name.len()] == 47u8
}

/// Whether `name` is one of the components of the `/`-separated path `s`.
pub open spec fn has_component(s: Seq<u8>, name: Seq<u8>) -> bool {
    exists|a: int| component_at(s, name, a)
}

fn has_component_exec(path: &[u8], name: &[u8]) -> (r: bool)
    requires
        name@.len() > 0,
    ensures
        r == has_component(path@, name@),
{
    let n = path.len();
    let mut a: usize = 0;
    while a < n
        invariant
            n == path@.len(),
            a <= n,
            forall|q: int| 0 <= q < a ==> !component_at(path@, name@, q),
        decreases n - a,
    {
        let starts = a == 0 || path[a - 1] == 47u8;
        if starts && occurs_at_exec(path, name, a) {
            let e = a + name.len();
            if e == n || path[e] == 47u8 {
                assert(component_at(path@, name@, a as int));
                return true;
            }
        }
        a = a + 1;
    }
    assert forall|q: int| !component_at(path@, name@, q) by {
        if q >= a {
            assert(!occurs_at(path@, name@, q));
        }
    }
    false
}

/// Whether a relative path lies in the engine's working directory or in its
/// backup directory, which are never part of a tree's file set: one of its
/// components is `.patchiniored` or `backup`.
pub fn is_reserved_path(path: &[u8]) -> (r: bool)
    ensures
        r == (has_component(path@, work_dir_name()) || has_component(path@, backup_dir_name())),
{
    let work = work_dir_name_bytes();
    let backup = backup_dir_name_bytes();
    has_component_exec(path, work.as_slice()) || has_component_exec(path, backup.as_slice())
}

/// Decimal digits of `n`, most significant first, without leading zeros.
pub open spec fn decimal(n: nat) -> Seq<u8>
    decreases n,
{
    if n < 10 {
        seq![(48 + n) as u8]
    } else {
        decimal(n / 10).push((48 + n % 10) as u8)
    }
}

/// Decimal digits of `n`, with zeros in front up to `w` digits.
pub open spec fn zero_padded(n: nat, w: nat) -> Seq<u8> {
    let d = decimal(n);
    if d.len() >= w {
        d
    } else {
        Seq::new((w - d.len()) as nat, |_i: int| 48u8) + d
    }
}

/// Digits the chunk index of an entry name is padded to.
pub const INDEX_WIDTH: usize = 3;

fn push_decimal(out: &mut Vec<u8>, n: u64)
    ensures
        final(out)@ == old(out)@ + decimal(n as nat),
    decreases n,
{
    if n >= 10 {
        push_decimal(out, n / 10);
    }
    out.push(48u8 + (n % 10) as u8);
    assert(final(out)@ =~= old(out)@ + decimal(n as nat));
}

fn decimal_len(n: u64) -> (r: u64)
    ensures
        r == decimal(n as nat).len(),
        r <= n as nat + 1,
    decreases n,
{
    if n < 10 {
        1
    } else {
        let k = decimal_len(n / 10);
        k + 1
    }
}

/// Name of the entry holding the delta of chunk `index` of the file at `path`:
/// the path, `.zspatch`, and the index in decimal, zero-padded to three digits.
pub fn diff_entry_name(path: &[u8], index: u64) -> (r: Vec<u8>)
    ensures
        r@ == path@ + delta_mark() + zero_padded(index as nat, INDEX_WIDTH as nat),
{
    let mut out: Vec<u8> = Vec::new();
    let mark = delta_mark_bytes();
    crate::delta::append_bytes(&mut out, path);
    crate::delta::append_bytes(&mut out, mark.as_slice());
    let len = decimal_len(index);
    let ghost before = out@;
    let mut z: u64 = len;
    while z < INDEX_WIDTH as u64
        invariant
            len <= z,
            z <= INDEX_WIDTH || z == len,
            len == decimal(index as nat).len(),
            out@ == before + Seq::new((z - len) as nat, |_i: int| 48u8),
        decreases INDEX_WIDTH - z,
    {
        out.push(48u8);
        z = z + 1;
        assert(out@ =~= before + Seq::new((z - len) as nat, |_i: int| 48u8));
    }
    let ghost padded = out@;
    push_decimal(&mut out, index);
    proof {
        if len >= INDEX_WIDTH {
            assert(padded =~= before);
        }
        assert(out@ =~= path@ + delta_mark() + zero_padded(index as nat, INDEX_WIDTH as nat));
    }
    out
}

/// Whether `p` is the last offset at which `pat` occurs in `s`.
pub open spec fn last_occurrence(s: Seq<u8>, pat: Seq<u8>, p: int) -> bool {
    occurs_at(s, pat, p) && forall|q: int| p < q ==> !occurs_at(s, pat, q)
}

/// Whether every byte of `s` is an ASCII decimal digit.
pub open spec fn all_digits(s: Seq<u8>) -> bool {
    forall|j: int| 0 <= j < s.len() ==> 48 <= #[trigger] s[j] <= 57
}

/// The number that the decimal digits `s` spell.
pub open spec fn digits_value(s: Seq<u8>) -> nat
    decreases s.len(),
{
    if s.len() == 0 {
        0
    } else {
        digits_value(s.drop_last()) * 10 + (s.last() - 48) as nat
    }
}

/// Whether `s` spells a chunk index: at least one digit, digits only, and a
/// value that fits in 64 bits.
pub open spec fn valid_index(s: Seq<u8>) -> bool {
    s.len() > 0 && all_digits(s) && digits_value(s) <= u64::MAX
}

/// What follows the delta mark found at offset `p` of `name`.
pub open spec fn index_text(name: Seq<u8>, p: int) -> Seq<u8> {
    name.subrange(p + delta_mark().len(), name.len() as int)
}

/// A malformed entry of the patch artifact.
#[derive(Debug, Clone, Copy, PartialEq, Eq, Structural)]
pub enum FormatError {
    /// A delta entry's name holds no `.zspatch`.
    MissingDeltaMark,
    /// What follows the last `.zspatch` is not a chunk index.
    BadChunkIndex,
    /// The entry lies in none of the three top-level categories.
    UnknownCategory,
}

/// A delta entry's name, split: the file's path is the first `path_len` bytes.
#[derive(Debug, Clone, Copy, PartialEq, Eq, Structural)]
pub struct DiffName {
    pub path_len: usize,
    pub index: u64,
}

proof fn lemma_digits_value_prefix(s: Seq<u8>, i: int)
    requires
        0 <= i <= s.len(),
    ensures
        digits_value(s.subrange(0, i)) <= digits_value(s),
    decreases s.len(),
{
    if i < s.len() {
        lemma_digits_value_prefix(s.drop_last(), i);
        assert(s.drop_last().subrange(0, i) =~= s.subrange(0, i));
    } else {
        assert(s.subrange(0, i) =~= s);
    }
}

/// Splits the name of a delta entry, `<path>.zspatch<index>`, at the last
/// `.zspatch` into the path's length and the chunk index.
pub fn parse_diff_entry_name(name: &[u8]) -> (r: Result<DiffName, FormatError>)
    ensures
        r matches Ok(d) ==> last_occurrence(name@, delta_mark(), d.path_len as int)
            && valid_index(index_text(name@, d.path_len as int))
            && d.index as nat == digits_value(index_text(name@, d.path_len as int)),
        r == Err::<DiffName, FormatError>(FormatError::MissingDeltaMark) <==> !occurs_in(name@, delta_mark()),
        r == Err::<DiffName, FormatError>(FormatError::BadChunkIndex) ==> exists|p: int|
            last_occurrence(name@, delta_mark(), p) && !valid_index(index_text(name@, p)),
        r is Err ==> r == Err::<DiffName, FormatError>(FormatError::MissingDeltaMark) || r == Err::<DiffName, FormatError>(FormatError::BadChunkIndex),
{
    let mark = delta_mark_bytes();
    let n = name.len();
    let mut q: usize = n;
    let mut found = false;
    while q > 0 && !found
        invariant
            mark@ == delta_mark(),
            n == name@.len(),
            q <= n,
            forall|x: int| q <= x ==> !occurs_at(name@, delta_mark(), x),
            found ==> q > 0 && occurs_at(name@, delta_mark(), q - 1),
        decreases q + (if found { 0int } else { 1int }),
    {
        if occurs_at_exec(name, mark.as_slice(), q - 1) {
            found = true;
        } else {
            q = q - 1;
        }
    }
    if !found {
        assert forall|x: int| !occurs_at(name@, delta_mark(), x) by {
            if x < q {
            }
        }
        return Err(FormatError::MissingDeltaMark);
    }
    let p = q - 1;
    assert(last_occurrence(name@, delta_mark(), p as int));
    assert(occurs_in(name@, delta_mark()));
    assert(delta_mark().len() == 8);
    let ghost digits = index_text(name@, p as int);
    let start = p + 8;
    if start == n {
        assert(last_occurrence(name@, delta_mark(), p as int) && !valid_index(index_text(name@, p as int)));
        return Err(FormatError::BadChunkIndex);
    }
    let mut acc: u64 = 0;
    let mut i: usize = start;
    while i < n
        invariant
            start <= i <= n,
            n == name@.len(),
            digits == name@.subrange(start as int, n as int),
            digits == index_text(name@, p as int),
            last_occurrence(name@, delta_mark(), p as int),
            acc as nat == digits_value(digits.subrange(0, i - start)),
            all_digits(digits.subrange(0, i - start)),
        decreases n - i,
    {
        let b = name[i];
        assert(digits.subrange(0, i + 1 - start).drop_last() =~= digits.subrange(0, i - start));
        if b < 48 || b > 57 {
            assert(digits[i - start] == b);
            assert(last_occurrence(name@, delta_mark(), p as int) && !valid_index(index_text(name@, p as int)));
            return Err(FormatError::BadChunkIndex);
        }
        let d = (b - 48) as u64;
        assert(digits.subrange(0, i + 1 - start).last() == b);
        match acc.checked_mul(10) {
            Some(t) => match t.checked_add(d) {
                Some(v) => {
                    acc = v;
                },
                None => {
                    proof {
                        lemma_digits_value_prefix(digits, i + 1 - start);
                        assert(last_occurrence(name@, delta_mark(), p as int) && !valid_index(index_text(name@, p as int)));
                    }
                    return Err(FormatError::BadChunkIndex);
                },
            },
            None => {
                proof {
                    lemma_digits_value_prefix(digits, i + 1 - start);
                    assert(last_occurrence(name@, delta_mark(), p as int) && !valid_index(index_text(name@, p as int)));
                }
                return Err(FormatError::BadChunkIndex);
            },
        }
        i = i + 1;
    }
    assert(digits.subrange(0, n - start) =~= digits);
    Ok(DiffName { path_len: p, index: acc })
}

/// Whether `f` is the offset of the first `/` in `s`, or the length of `s`
/// when it holds none.
pub open spec fn first_slash(s: Seq<u8>, f: int) -> bool {
    0 <= f <= s.len() && (f < s.len() ==> s[f] == 47u8) && forall|j: int| 0 <= j < f ==> s[j] != 47u8
}

/// The top-level category of an entry of the artifact.
#[derive(Debug, Clone, Copy, PartialEq, Eq, Structural)]
pub enum EntryKind {
    /// A file of the new tree that the old one lacks.
    Added,
    /// The delta of one chunk of a changed file.
    Diff,
    /// The list of removed files.
    RemovalList,
}

/// An entry of the artifact: its category, and the offset in its path at which
/// the path inside that category starts.
#[derive(Debug, Clone, Copy, PartialEq, Eq, Structural)]
pub struct ArchiveEntry {
    pub kind: EntryKind,
    pub inner_start: usize,
}

fn bytes_of_category(kind: EntryKind) -> (r: Vec<u8>)
    ensures
        kind is Added ==> r@ == added_category(),
        kind is Diff ==> r@ == diff_category(),
        kind is RemovalList ==> r@ == removal_category(),
{
    let r = match kind {
        EntryKind::Added => vec![110u8, 101u8, 119u8, 95u8, 102u8, 105u8, 108u8, 101u8, 115u8],
        EntryKind::Diff => vec![100u8, 105u8, 102u8, 102u8, 95u8, 102u8, 105u8, 108u8, 101u8, 115u8],
        EntryKind::RemovalList => vec![114u8, 109u8, 95u8, 102u8, 105u8, 108u8, 101u8, 115u8, 46u8, 116u8, 120u8, 116u8],
    };
    assert(kind is Added ==> r@ =~= added_category());
    assert(kind is Diff ==> r@ =~= diff_category());
    assert(kind is RemovalList ==> r@ =~= removal_category());
    r
}

/// Sorts an entry of the artifact by the part of its path before the first
/// `/`. Added files and deltas need a path after it; the removal list is the
/// category name alone.
pub fn classify_entry(path: &[u8]) -> (r: Result<ArchiveEntry, FormatError>)
    ensures
        r matches Ok(e) ==> e.kind is Added ==> e.inner_start >= 1 && first_slash(path@, e.inner_start - 1)
            && e.inner_start - 1 < path@.len() && path@.subrange(0, e.inner_start - 1) == added_category(),
        r matches Ok(e) ==> e.kind is Diff ==> e.inner_start >= 1 && first_slash(path@, e.inner_start - 1)
            && e.inner_start - 1 < path@.len() && path@.subrange(0, e.inner_start - 1) == diff_category(),
        r matches Ok(e) ==> e.kind is RemovalList ==> e.inner_start == path@.len()
            && path@ == removal_category(),
        r is Err ==> r == Err::<ArchiveEntry, FormatError>(FormatError::UnknownCategory) && forall|f: int|
            first_slash(path@, f) ==> !(f < path@.len() && (path@.subrange(0, f) == added_category()
                || path@.subrange(0, f) == diff_category())) && path@ != removal_category(),
{
    let n = path.len();
    let mut f: usize = 0;
    while f < n && path[f] != 47u8
        invariant
            n == path@.len(),
            f <= n,
            forall|j: int| 0 <= j < f ==> path@[j] != 47u8,
        decreases n - f,
    {
        f = f + 1;
    }
    assert(first_slash(path@, f as int));
    assert forall|g: int| first_slash(path@, g) implies g == f by {
        if g < f {
            assert(path@[g] != 47u8);
        } else if g > f {
            assert(path@[f as int] == 47u8);
        }
    }
    let head = vstd::slice::slice_subrange(path, 0, f);
    let added = bytes_of_category(EntryKind::Added);
    let diff = bytes_of_category(EntryKind::Diff);
    let removal = bytes_of_category(EntryKind::RemovalList);
    if f < n && crate::delta::bytes_equal(head, added.as_slice()) {
        return Ok(ArchiveEntry { kind: EntryKind::Added, inner_start: f + 1 });
    }
    if f < n && crate::delta::bytes_equal(head, diff.as_slice()) {
        return Ok(ArchiveEntry { kind: EntryKind::Diff, inner_start: f + 1 });
    }
    if crate::delta::bytes_equal(path, removal.as_slice()) {
        return Ok(ArchiveEntry { kind: EntryKind::RemovalList, inner_start: n });
    }
    Err(FormatError::UnknownCategory)
}

/// The bytes of the removal list for `paths`: each path in UTF-8, followed by a
/// line feed.
pub open spec fn removal_text(paths: Seq<Seq<char>>) -> Seq<u8>
    decreases paths.len(),
{
    if paths.len() == 0 {
        Seq::empty()
    } else {
        removal_text(paths.drop_last()) + encode_utf8(paths.last()) + seq![10u8]
    }
}

/// Writes the removal list: one path per line, each line ended by a line feed.
pub fn removal_list(paths: &Vec<String>) -> (r: Vec<u8>)
    ensures
        r@ == removal_text(paths@.map_values(|p: String| p@)),
{
    let ghost views = paths@.map_values(|p: String| p@);
    let mut out: Vec<u8> = Vec::new();
    let mut i: usize = 0;
    while i < paths.len()
        invariant
            i <= paths@.len(),
            views == paths@.map_values(|p: String| p@),
            out@ == removal_text(views.subrange(0, i as int)),
        decreases paths@.len() - i,
    {
        let ghost before = out@;
        let b = paths[i].as_str().as_bytes();
        crate::delta::append_bytes(&mut out, b);
        out.push(10u8);
        proof {
            assert(views.subrange(0, i + 1).drop_last() =~= views.subrange(0, i as int));
            assert(views.subrange(0, i + 1).last() == paths@[i as int]@);
            assert(out@ =~= before + encode_utf8(paths@[i as int]@) + seq![10u8]);
        }
        i = i + 1;
    }
    assert(views.subrange(0, paths@.len() as int) =~= views);
    out
}

/// The lines `text` holds when each of them ends with a line feed, the last one
/// possibly without.
pub open spec fn joined_lines(lines: Seq<Seq<u8>>, last_ended: bool) -> Seq<u8>
    decreases lines.len(),
{
    if lines.len() == 0 {
        Seq::empty()
    } else if lines.len() == 1 && !last_ended {
        lines[0]
    } else {
        lines[0] + seq![10u8] + joined_lines(lines.drop_first(), last_ended)
    }
}

proof fn lemma_joined_push(lines: Seq<Seq<u8>>, x: Seq<u8>, last_ended: bool)
    ensures
        joined_lines(lines.push(x), last_ended) == joined_lines(lines, true) + x + if last_ended {
            seq![10u8]
        } else {
            Seq::empty()
        },
    decreases lines.len(),
{
    if lines.len() == 0 {
        assert(lines.push(x).drop_first() =~= Seq::<Seq<u8>>::empty());
        assert(lines.push(x)[0] == x);
        assert(joined_lines(Seq::<Seq<u8>>::empty(), last_ended) == Seq::<u8>::empty());
        assert(joined_lines(lines, true) == Seq::<u8>::empty());
        assert(joined_lines(lines.push(x), last_ended) =~= x + if last_ended {
            seq![10u8]
        } else {
            Seq::empty()
        });
    } else {
        lemma_joined_push(lines.drop_first(), x, last_ended);
        assert(lines.push(x).drop_first() =~= lines.drop_first().push(x));
        assert(joined_lines(lines.push(x), last_ended) =~= lines[0] + seq![10u8] + joined_lines(lines.drop_first().push(x), last_ended));
    }
}

/// Reads the removal list: the lines of `text`, without their line feeds. A
/// line feed at the very end does not start another line.
pub fn parse_removal_list(text: &[u8]) -> (r: Vec<Vec<u8>>)
    ensures
        joined_lines(r@.map_values(|l: Vec<u8>| l@), text@.len() > 0 && text@.last() == 10u8) == text@,
        forall|j: int, k: int| 0 <= j < r@.len() && 0 <= k < r@[j]@.len() ==> r@[j]@[k] != 10u8,
        text@.len() == 0 ==> r@.len() == 0,
{
    let n = text.len();
    let mut out: Vec<Vec<u8>> = Vec::new();
    let mut ls: usize = 0;
    let mut i: usize = 0;
    while i < n
        invariant
            n == text@.len(),
            ls <= i <= n,
            joined_lines(out@.map_values(|l: Vec<u8>| l@), true) == text@.subrange(0, ls as int),
            forall|j: int, k: int| 0 <= j < out@.len() && 0 <= k < out@[j]@.len() ==> out@[j]@[k] != 10u8,
            forall|j: int| ls <= j < i ==> text@[j] != 10u8,
            ls > 0 ==> text@[ls - 1] == 10u8,
            ls == 0 ==> out@.len() == 0,
        decreases n - i,
    {
        if text[i] == 10u8 {
            let mut line: Vec<u8> = Vec::new();
            crate::delta::append_bytes(&mut line, vstd::slice::slice_subrange(text, ls, i));
            let ghost before = out@;
            out.push(line);
            proof {
                assert(out@.map_values(|l: Vec<u8>| l@) =~= before.map_values(|l: Vec<u8>| l@).push(line@));
                lemma_joined_push(before.map_values(|l: Vec<u8>| l@), line@, true);
                assert(text@.subrange(0, ls as int) + line@ + seq![10u8] =~= text@.subrange(0, i + 1));
            }
            ls = i + 1;
        }
        i = i + 1;
    }
    if ls < n {
        let mut line: Vec<u8> = Vec::new();
        crate::delta::append_bytes(&mut line, vstd::slice::slice_subrange(text, ls, n));
        let ghost before = out@;
        out.push(line);
        proof {
            assert(out@.map_values(|l: Vec<u8>| l@) =~= before.map_values(|l: Vec<u8>| l@).push(line@));
            lemma_joined_push(before.map_values(|l: Vec<u8>| l@), line@, false);
            assert(text@.subrange(0, ls as int) + line@ =~= text@);
        }
    } else {
        assert(text@.subrange(0, ls as int) =~= text@);
        proof {
            let views = out@.map_values(|l: Vec<u8>| l@);
            if views.len() > 0 {
                lemma_joined_push(views.drop_last(), views.last(), true);
                lemma_joined_push(views.drop_last(), views.last(), false);
                assert(views.drop_last().push(views.last()) =~= views);
            }
        }
    }
    out
}

proof fn lemma_decimal_digits(n: nat)
    ensures
        decimal(n).len() >= 1,
        all_digits(decimal(n)),
        digits_value(decimal(n)) == n,
    decreases n,
{
    let d = decimal(n);
    if n >= 10 {
        lemma_decimal_digits(n / 10);
        assert(d.drop_last() =~= decimal(n / 10));
        assert(d.last() == (48 + n % 10) as u8);
        assert(((48 + n % 10) as u8) as int == 48 + n % 10);
        assert(n == (n / 10) * 10 + n % 10);
        assert(digits_value(d) == digits_value(decimal(n / 10)) * 10 + (d.last() - 48) as nat);
        assert forall|j: int| 0 <= j < d.len() implies 48 <= #[trigger] d[j] <= 57 by {
            if j < d.len() - 1 {
                assert(d[j] == decimal(n / 10)[j]);
            }
        }
    } else {
        assert(d.drop_last() =~= Seq::<u8>::empty());
        assert(d.last() == (48 + n) as u8);
        assert(digits_value(d) == digits_value(d.drop_last()) * 10 + (d.last() - 48) as nat);
    }
}

proof fn lemma_zeros_value(z: Seq<u8>)
    requires
        forall|j: int| 0 <= j < z.len() ==> z[j] == 48u8,
    ensures
        digits_value(z) == 0,
    decreases z.len(),
{
    if z.len() > 0 {
        lemma_zeros_value(z.drop_last());
    }
}

proof fn lemma_leading_zeros(z: Seq<u8>, d: Seq<u8>)
    requires
        forall|j: int| 0 <= j < z.len() ==> z[j] == 48u8,
    ensures
        digits_value(z + d) == digits_value(d),
    decreases d.len(),
{
    if d.len() == 0 {
        assert(z + d =~= z);
        lemma_zeros_value(z);
    } else {
        assert((z + d).drop_last() =~= z + d.drop_last());
        lemma_leading_zeros(z, d.drop_last());
    }
}

/// The name `diff_entry_name` gives to chunk `index` of the file at `path`
/// reads back: its last `.zspatch` is the one right after the path, and what
/// follows it is a chunk index whose value is `index`. So
/// `parse_diff_entry_name` returns the path's length and `index`.
pub proof fn lemma_entry_name_reads_back(path: Seq<u8>, index: u64)
    ensures
        last_occurrence(path + delta_mark() + zero_padded(index as nat, INDEX_WIDTH as nat), delta_mark(), path.len() as int),
        forall|p: int|
            last_occurrence(path + delta_mark() + zero_padded(index as nat, INDEX_WIDTH as nat), delta_mark(), p)
                ==> p == path.len(),
        valid_index(index_text(path + delta_mark() + zero_padded(index as nat, INDEX_WIDTH as nat), path.len() as int)),
        digits_value(index_text(path + delta_mark() + zero_padded(index as nat, INDEX_WIDTH as nat), path.len() as int))
            == index as nat,
{
    let d = decimal(index as nat);
    let z = zero_padded(index as nat, INDEX_WIDTH as nat);
    let name = path + delta_mark() + z;
    let l = path.len() as int;
    lemma_decimal_digits(index as nat);
    assert(delta_mark().len() == 8);
    assert(name.subrange(l, l + 8) =~= delta_mark());
    assert(index_text(name, l) =~= z);
    if d.len() >= INDEX_WIDTH {
        assert(z == d);
    } else {
        let zeros = Seq::new((INDEX_WIDTH - d.len()) as nat, |_i: int| 48u8);
        assert(z == zeros + d);
        lemma_leading_zeros(zeros, d);
        assert forall|j: int| 0 <= j < z.len() implies 48 <= #[trigger] z[j] <= 57 by {
            if j >= zeros.len() {
                assert(z[j] == d[j - zeros.len()]);
            }
        }
    }
    assert forall|q: int| l < q implies !occurs_at(name, delta_mark(), q) by {
        if occurs_at(name, delta_mark(), q) {
            assert(name.subrange(q, q + 8)[0] == name[q]);
            if q < l + 8 {
                assert(name[q] == delta_mark()[q - l]);
            } else {
                assert(name[q] == z[q - l - 8]);
            }
        }
    }
}

/// The UTF-8 bytes of each of the paths `ps`.
pub open spec fn encoded_paths(ps: Seq<Seq<char>>) -> Seq<Seq<u8>> {
    ps.map_values(|p: Seq<char>| encode_utf8(p))
}

/// Whether no line of `lines` holds a line feed.
pub open spec fn no_line_feeds(lines: Seq<Seq<u8>>) -> bool {
    forall|j: int, k: int| 0 <= j < lines.len() && 0 <= k < lines[j].len() ==> lines[j][k] != 10u8
}

proof fn lemma_removal_text_joined(ps: Seq<Seq<char>>)
    ensures
        removal_text(ps) == joined_lines(encoded_paths(ps), true),
    decreases ps.len(),
{
    if ps.len() == 0 {
        assert(encoded_paths(ps) =~= Seq::<Seq<u8>>::empty());
    } else {
        lemma_removal_text_joined(ps.drop_last());
        assert(encoded_paths(ps) =~= encoded_paths(ps.drop_last()).push(encode_utf8(ps.last())));
        lemma_joined_push(encoded_paths(ps.drop_last()), encode_utf8(ps.last()), true);
    }
}

proof fn lemma_joined_unique(a: Seq<Seq<u8>>, b: Seq<Seq<u8>>)
    requires
        no_line_feeds(a),
        no_line_feeds(b),
        joined_lines(a, true) == joined_lines(b, true),
    ensures
        a == b,
    decreases a.len(),
{
    let t = joined_lines(a, true);
    if a.len() == 0 {
        if b.len() > 0 {
            assert(joined_lines(b, true).len() >= 1);
        }
        assert(b =~= a);
    } else {
        if b.len() == 0 {
            assert(t.len() >= 1);
        }
        let a0 = a[0];
        let b0 = b[0];
        assert(t == a0 + seq![10u8] + joined_lines(a.drop_first(), true));
        assert(t == b0 + seq![10u8] + joined_lines(b.drop_first(), true));
        if a0.len() < b0.len() {
            assert(t[a0.len() as int] == 10u8);
            assert(t[a0.len() as int] == b0[a0.len() as int]);
        }
        if b0.len() < a0.len() {
            assert(t[b0.len() as int] == 10u8);
            assert(t[b0.len() as int] == a0[b0.len() as int]);
        }
        assert(a0 =~= t.subrange(0, a0.len() as int));
        assert(b0 =~= t.subrange(0, b0.len() as int));
        assert(joined_lines(a.drop_first(), true) =~= t.subrange(a0.len() as int + 1, t.len() as int));
        assert(joined_lines(b.drop_first(), true) =~= t.subrange(b0.len() as int + 1, t.len() as int));
        assert forall|j: int, k: int| 0 <= j < a.drop_first().len() && 0 <= k < a.drop_first()[j].len()
            implies a.drop_first()[j][k] != 10u8 by {
            assert(a.drop_first()[j] == a[j + 1]);
        }
        assert forall|j: int, k: int| 0 <= j < b.drop_first().len() && 0 <= k < b.drop_first()[j].len()
            implies b.drop_first()[j][k] != 10u8 by {
            assert(b.drop_first()[j] == b[j + 1]);
        }
        lemma_joined_unique(a.drop_first(), b.drop_first());
        assert(a =~= seq![a0] + a.drop_first());
        assert(b =~= seq![b0] + b.drop_first());
    }
}

/// The removal list reads back: lines split from the text `removal_list`
/// wrote for `ps` as `parse_removal_list` splits them (no line holds a line
/// feed, they join back to the text, and empty text gives no line) are the
/// paths' UTF-8 bytes, one per path and in order, provided no path holds a
/// line feed.
pub proof fn lemma_removal_list_reads_back(ps: Seq<Seq<char>>, lines: Seq<Seq<u8>>)
    requires
        no_line_feeds(encoded_paths(ps)),
        no_line_feeds(lines),
        joined_lines(lines, removal_text(ps).len() > 0 && removal_text(ps).last() == 10u8) == removal_text(ps),
        removal_text(ps).len() == 0 ==> lines.len() == 0,
    ensures
        lines == encoded_paths(ps),
{
    lemma_removal_text_joined(ps);
    if ps.len() == 0 {
        assert(encoded_paths(ps) =~= lines);
    } else {
        assert(removal_text(ps).len() > 0 && removal_text(ps).last() == 10u8);
        lemma_joined_unique(lines, encoded_paths(ps));
    }
}

} // verus!
