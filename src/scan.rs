use vstd::prelude::*;
use vstd::set_lib::{lemma_int_range, lemma_len_subset, set_int_range};
use crate::error::ThemeError;

verus! {

/// How many of the largest matching files a scan previews.
pub const PREVIEW_LIMIT: usize = 5;

/// In preview order, entry `i` comes before entry `j`: it is larger, or as large and
/// met earlier in the walk.
pub open spec fn ranks_before(sizes: Seq<u64>, i: int, j: int) -> bool {
    sizes[i] > sizes[j] || (sizes[i] == sizes[j] && i < j)
}

/// `order` lists the first entries of `sizes` sorted by size, largest first, ties in
/// walk order, and stops after `PREVIEW_LIMIT` entries.
pub open spec fn is_preview_order(sizes: Seq<u64>, order: Seq<usize>) -> bool {
    &&& order.len() <= PREVIEW_LIMIT
    &&& forall|a: int| 0 <= a < order.len() ==> (#[trigger] order[a]) < sizes.len()
    &&& forall|a: int, b: int|
        0 <= a < b < order.len() ==> ranks_before(sizes, #[trigger] order[a] as int, #[trigger] order[b] as int)
    &&& forall|j: int|
        0 <= j < sizes.len() ==> #[trigger] order.contains(j as usize) || (order.len()
            == PREVIEW_LIMIT && ranks_before(sizes, order[order.len() - 1] as int, j))
}

/// Entry `m` may come next after the entries already in `order`.
pub open spec fn may_follow(sizes: Seq<u64>, order: Seq<usize>, m: int) -> bool {
    order.len() == 0 || ranks_before(sizes, order[order.len() - 1] as int, m)
}

fn ranks_before_exec(sizes: &Vec<u64>, i: usize, j: usize) -> (r: bool)
    requires
        i < sizes.len(),
        j < sizes.len(),
    ensures
        r == ranks_before(sizes@, i as int, j as int),
{
    sizes[i] > sizes[j] || (sizes[i] == sizes[j] && i < j)
}

/// The positions of the entries a scan previews: at most `PREVIEW_LIMIT` of them, by
/// size from the largest down, equal sizes in walk order.
pub fn preview_order(sizes: &Vec<u64>) -> (r: Vec<usize>)
    ensures
        is_preview_order(sizes@, r@),
{
    let n = sizes.len();
    let mut r: Vec<usize> = Vec::new();
    while r.len() < PREVIEW_LIMIT
        invariant
            n == sizes@.len(),
            r@.len() <= PREVIEW_LIMIT,
            forall|a: int| 0 <= a < r@.len() ==> (#[trigger] r@[a]) < n,
            forall|a: int, b: int|
                0 <= a < b < r@.len() ==> ranks_before(sizes@, #[trigger] r@[a] as int, #[trigger] r@[b] as int),
            forall|j: int|
                0 <= j < n ==> r@.len() == 0 || #[trigger] r@.contains(j as usize)
                    || may_follow(sizes@, r@, j),
        decreases PREVIEW_LIMIT - r@.len(),
    {
        let len = r.len();
        let mut best: Option<usize> = None;
        let mut j: usize = 0;
        while j < n
            invariant
                j <= n,
                n == sizes@.len(),
                len == r@.len(),
                len < PREVIEW_LIMIT,
                forall|a: int| 0 <= a < r@.len() ==> (#[trigger] r@[a]) < n,
                match best {
                    Some(b) => b < j && may_follow(sizes@, r@, b as int) && forall|m: int|
                        0 <= m < j && #[trigger] may_follow(sizes@, r@, m) ==> m == b
                            || ranks_before(sizes@, b as int, m),
                    None => forall|m: int| 0 <= m < j ==> !#[trigger] may_follow(sizes@, r@, m),
                },
            decreases n - j,
        {
            let candidate = len == 0 || ranks_before_exec(sizes, r[len - 1], j);
            if candidate {
                match best {
                    None => {
                        best = Some(j);
                    },
                    Some(b) => {
                        if ranks_before_exec(sizes, j, b) {
                            best = Some(j);
                        }
                    },
                }
            }
            j = j + 1;
        }
        match best {
            None => {
                assert forall|j: int| 0 <= j < n implies #[trigger] r@.contains(j as usize) by {
                    assert(!may_follow(sizes@, r@, j));
                }
                return r;
            },
            Some(b) => {
                let ghost old_r = r@;
                r.push(b);
                assert(forall|a: int| 0 <= a < len ==> #[trigger] r@[a] == old_r[a]);
                assert forall|j: int| 0 <= j < n implies r@.len() == 0 || #[trigger] r@.contains(
                    j as usize,
                ) || may_follow(sizes@, r@, j) by {
                    if old_r.contains(j as usize) {
                        let a = choose|a: int| 0 <= a < old_r.len() && old_r[a] == j as usize;
                        assert(r@[a] == j as usize);
                    } else if j == b as int {
                        assert(r@[len as int] == j as usize);
                    }
                }
            },
        }
    }
    r
}

/// A scan starts only from a directory.
pub fn check_scan_root(path: String, is_dir: bool) -> (r: Result<String, ThemeError>)
    ensures
        is_dir <==> r is Ok,
        r matches Ok(p) ==> p == path,
        r matches Err(e) ==> e == (ThemeError::NotADirectory { path }),
{
    if is_dir {
        Ok(path)
    } else {
        Err(ThemeError::NotADirectory { path })
    }
}

/// The number of matching files a scan counts is the number of distinct canonical
/// paths it recorded, however many links lead to the same file.
pub proof fn lemma_count_is_distinct_files(s: ScanState)
    requires
        s.wf(),
    ensures
        s.entries().len() == s.canonical_paths().to_set().len(),
{
    s.canonical_paths().unique_seq_to_set();
}

/// A matching file shown in a scan's preview: its path, its size in bytes, and its text.
pub struct SvgFile {
    pub path: String,
    pub size: u64,
    pub content: String,
}

/// What a scan of a directory found.
pub struct ScanResult {
    pub source_dir: String,
    pub preview_svgs: Vec<SvgFile>,
    pub total_svg_count: usize,
    pub non_svg_count: usize,
}

/// The sizes of the recorded entries, in walk order.
pub open spec fn sizes_of(entries: Seq<(String, u64)>) -> Seq<u64> {
    entries.map_values(|e: (String, u64)| e.1)
}

/// What reading a preview candidate gave.
pub enum PreviewRead {
    /// The file's whole text.
    Text(String),
    /// The file was read but is not valid UTF-8: it is left out of the preview.
    NotUtf8,
    /// Reading failed for another reason, given here: the scan fails.
    Failed(String),
}

/// The preview built from the candidates and what reading each one gave: candidates
/// that are not UTF-8 text are left out, the others keep their order.
pub open spec fn previewed(cands: Seq<(String, u64)>, texts: Seq<PreviewRead>) -> Seq<SvgFile>
    decreases cands.len(),
{
    if cands.len() == 0 || texts.len() == 0 {
        Seq::empty()
    } else {
        let before = previewed(cands.drop_last(), texts.drop_last());
        match texts.last() {
            PreviewRead::Text(t) => before.push(
                SvgFile { path: cands.last().0, size: cands.last().1, content: t },
            ),
            _ => before,
        }
    }
}

/// Previewed file `a` is candidate `i`: same path, same size.
pub open spec fn shows(p: Seq<SvgFile>, a: int, cands: Seq<(String, u64)>, i: int) -> bool {
    p[a].path == cands[i].0 && p[a].size == cands[i].1
}

/// Previewed file `a` is one of the candidates.
pub open spec fn shows_some(p: Seq<SvgFile>, a: int, cands: Seq<(String, u64)>) -> bool {
    exists|i: int| 0 <= i < cands.len() && #[trigger] shows(p, a, cands, i)
}

/// Previewed files `a` and `b` are candidates in that order.
pub open spec fn shows_in_order(p: Seq<SvgFile>, a: int, b: int, cands: Seq<(String, u64)>) -> bool {
    exists|i: int, j: int|
        0 <= i < j < cands.len() && #[trigger] shows(p, a, cands, i) && #[trigger] shows(
            p,
            b,
            cands,
            j,
        )
}

/// Each previewed file is one of the candidates, in the candidates' order, and there are
/// no more of them than candidates.
pub proof fn lemma_previewed_from_candidates(cands: Seq<(String, u64)>, texts: Seq<PreviewRead>)
    requires
        cands.len() == texts.len(),
    ensures
        previewed(cands, texts).len() <= cands.len(),
        forall|a: int|
            0 <= a < previewed(cands, texts).len() ==> #[trigger] shows_some(
                previewed(cands, texts),
                a,
                cands,
            ),
        forall|a: int, b: int|
            0 <= a < b < previewed(cands, texts).len() ==> #[trigger] shows_in_order(
                previewed(cands, texts),
                a,
                b,
                cands,
            ),
    decreases cands.len(),
{
    if cands.len() > 0 {
        let c0 = cands.drop_last();
        let t0 = texts.drop_last();
        lemma_previewed_from_candidates(c0, t0);
        let p = previewed(cands, texts);
        let p0 = previewed(c0, t0);
        let last = cands.len() - 1;
        assert forall|a: int| 0 <= a < p.len() implies #[trigger] shows_some(p, a, cands) by {
            if a < p0.len() {
                assert(p[a] == p0[a]);
                assert(shows_some(p0, a, c0));
                let i = choose|i: int| 0 <= i < c0.len() && shows(p0, a, c0, i);
                assert(cands[i] == c0[i]);
                assert(shows(p, a, cands, i));
            } else {
                assert(shows(p, a, cands, last));
            }
        }
        assert forall|a: int, b: int| 0 <= a < b < p.len() implies #[trigger] shows_in_order(
            p,
            a,
            b,
            cands,
        ) by {
            assert(p[a] == p0[a]);
            if b < p0.len() {
                assert(p[b] == p0[b]);
                assert(shows_in_order(p0, a, b, c0));
                let (i, j) = choose|i: int, j: int|
                    0 <= i < j < c0.len() && shows(p0, a, c0, i) && shows(p0, b, c0, j);
                assert(cands[i] == c0[i] && cands[j] == c0[j]);
                assert(shows(p, a, cands, i) && shows(p, b, cands, j));
            } else {
                assert(shows_some(p0, a, c0));
                let i = choose|i: int| 0 <= i < c0.len() && shows(p0, a, c0, i);
                assert(cands[i] == c0[i]);
                assert(shows(p, a, cands, i) && shows(p, b, cands, last));
            }
        }
    }
}

/// A preview order takes each entry at most once, so it is no longer than the entries.
pub proof fn lemma_preview_order_within_entries(sizes: Seq<u64>, order: Seq<usize>)
    requires
        is_preview_order(sizes, order),
    ensures
        order.len() <= sizes.len(),
{
    let oi = order.map_values(|x: usize| x as int);
    assert forall|a: int, b: int| 0 <= a < oi.len() && 0 <= b < oi.len() && a != b implies oi[a]
        != oi[b] by {
        if a < b {
            assert(ranks_before(sizes, order[a] as int, order[b] as int));
        } else {
            assert(ranks_before(sizes, order[b] as int, order[a] as int));
        }
    }
    oi.unique_seq_to_set();
    lemma_int_range(0, sizes.len() as int);
    assert forall|x: int| oi.to_set().contains(x) implies set_int_range(0, sizes.len() as int).contains(x) by {
        let a = choose|a: int| 0 <= a < oi.len() && oi[a] == x;
        assert(order[a] < sizes.len());
    }
    lemma_len_subset(oi.to_set(), set_int_range(0, sizes.len() as int));
}

/// Previewed files `a` and `b` are recorded entries, the first ahead of the second in
/// preview order.
pub open spec fn shown_in_preview_order(p: Seq<SvgFile>, a: int, b: int, entries: Seq<(String, u64)>) -> bool {
    exists|x: int, y: int|
        0 <= x < entries.len() && 0 <= y < entries.len() && #[trigger] shows(p, a, entries, x)
            && #[trigger] shows(p, b, entries, y) && ranks_before(sizes_of(entries), x, y)
}

/// The preview of a scan comes in preview order: of two previewed files the first is
/// the larger, or as large and met earlier in the walk; and there are no more of them
/// than `PREVIEW_LIMIT` or than the matching files counted.
pub proof fn lemma_preview_follows_walk(
    entries: Seq<(String, u64)>,
    order: Seq<usize>,
    cands: Seq<(String, u64)>,
    reads: Seq<PreviewRead>,
)
    requires
        is_preview_order(sizes_of(entries), order),
        order.len() == cands.len(),
        forall|a: int| 0 <= a < order.len() ==> cands[a] == entries[#[trigger] order[a] as int],
        cands.len() == reads.len(),
    ensures
        previewed(cands, reads).len() <= PREVIEW_LIMIT,
        previewed(cands, reads).len() <= entries.len(),
        forall|a: int, b: int|
            0 <= a < b < previewed(cands, reads).len() ==> #[trigger] shown_in_preview_order(
                previewed(cands, reads),
                a,
                b,
                entries,
            ),
{
    let p = previewed(cands, reads);
    lemma_previewed_from_candidates(cands, reads);
    lemma_preview_order_within_entries(sizes_of(entries), order);
    assert forall|a: int, b: int| 0 <= a < b < p.len() implies #[trigger] shown_in_preview_order(
        p,
        a,
        b,
        entries,
    ) by {
        assert(shows_in_order(p, a, b, cands));
        let (i, j) = choose|i: int, j: int|
            0 <= i < j < cands.len() && shows(p, a, cands, i) && shows(p, b, cands, j);
        let x = order[i] as int;
        let y = order[j] as int;
        assert(ranks_before(sizes_of(entries), x, y));
        assert(shows(p, a, entries, x) && shows(p, b, entries, y));
    }
}

/// A preview holds at most `PREVIEW_LIMIT` files, largest first, when it is built from
/// candidates of that number in that order (as `preview_candidates` gives them).
pub proof fn lemma_preview_short_and_sorted(cands: Seq<(String, u64)>, texts: Seq<PreviewRead>)
    requires
        cands.len() <= PREVIEW_LIMIT,
        cands.len() == texts.len(),
        forall|a: int, b: int| 0 <= a < b < cands.len() ==> cands[a].1 >= cands[b].1,
    ensures
        previewed(cands, texts).len() <= PREVIEW_LIMIT,
        forall|a: int, b: int|
            0 <= a < b < previewed(cands, texts).len() ==> previewed(cands, texts)[a].size
                >= previewed(cands, texts)[b].size,
    decreases cands.len(),
{
    lemma_previewed_from_candidates(cands, texts);
    if cands.len() > 0 {
        let c0 = cands.drop_last();
        let t0 = texts.drop_last();
        lemma_preview_short_and_sorted(c0, t0);
        lemma_previewed_from_candidates(c0, t0);
        let p = previewed(cands, texts);
        let p0 = previewed(c0, t0);
        assert forall|a: int, b: int| 0 <= a < b < p.len() implies p[a].size >= p[b].size by {
            assert(p[a] == p0[a]);
            if b < p0.len() {
                assert(p[b] == p0[b]);
            } else {
                assert(shows_some(p0, a, c0));
                let i = choose|i: int| 0 <= i < c0.len() && shows(p0, a, c0, i);
                assert(cands[i] == c0[i]);
                assert(p[b].size == cands[cands.len() - 1].1);
            }
        }
    }
}

/// What a scan has gathered so far: the canonical path of each distinct matching file,
/// that file's path as walked with its size, and the number of other files.
pub struct ScanState {
    /// Kept in a vector and searched in full, with no duplicates as the invariant: vstd
    /// specifies what a `HashSet`'s `contains` and `insert` do only for keys whose
    /// hashing it models (integers, `bool`), and `String` is not among them.
    seen: Vec<String>,
    svg_entries: Vec<(String, u64)>,
    non_svg_count: usize,
}

impl ScanState {
    /// The canonical paths recorded, one per distinct matching file, in walk order.
    pub closed spec fn canonical_paths(&self) -> Seq<Seq<char>> {
        self.seen@.map_values(|s: String| s@)
    }

    /// The matching files recorded: path as walked, and size.
    pub closed spec fn entries(&self) -> Seq<(String, u64)> {
        self.svg_entries@
    }

    /// The number of other files met.
    pub closed spec fn other_count(&self) -> nat {
        self.non_svg_count as nat
    }

    pub closed spec fn wf(&self) -> bool {
        &&& self.canonical_paths().no_duplicates()
        &&& self.seen@.len() == self.svg_entries@.len()
    }

    pub fn new() -> (r: ScanState)
        ensures
            r.wf(),
            r.canonical_paths() == Seq::<Seq<char>>::empty(),
            r.entries() == Seq::<(String, u64)>::empty(),
            r.other_count() == 0,
    {
        let r = ScanState { seen: Vec::new(), svg_entries: Vec::new(), non_svg_count: 0 };
        assert(r.canonical_paths() =~= Seq::<Seq<char>>::empty());
        r
    }

    /// Counts a file that does not match.
    pub fn record_other(&mut self)
        requires
            old(self).wf(),
            old(self).other_count() < usize::MAX,
        ensures
            final(self).wf(),
            final(self).other_count() == old(self).other_count() + 1,
            final(self).canonical_paths() == old(self).canonical_paths(),
            final(self).entries() == old(self).entries(),
    {
        self.non_svg_count = self.non_svg_count + 1;
    }

    /// The number of other files met so far.
    pub fn non_svg_count(&self) -> (r: usize)
        ensures
            r == self.other_count(),
    {
        self.non_svg_count
    }

    /// Whether a matching file with this canonical path was recorded already.
    pub fn has_seen(&self, canonical: &String) -> (r: bool)
        ensures
            r == self.canonical_paths().contains(canonical@),
    {
        let mut i: usize = 0;
        while i < self.seen.len()
            invariant
                i <= self.seen@.len(),
                forall|k: int| 0 <= k < i ==> (#[trigger] self.canonical_paths()[k]) != canonical@,
            decreases self.seen@.len() - i,
        {
            if self.seen[i] == *canonical {
                assert(self.canonical_paths()[i as int] == canonical@);
                return true;
            }
            i = i + 1;
        }
        false
    }

    /// Records a matching file, unless its canonical path was recorded already (another
    /// path to the same file). Returns whether it was new.
    pub fn record_svg(&mut self, canonical: String, path: String, size: u64) -> (r: bool)
        requires
            old(self).wf(),
        ensures
            final(self).wf(),
            r == !old(self).canonical_paths().contains(canonical@),
            r ==> final(self).canonical_paths() == old(self).canonical_paths().push(canonical@),
            r ==> final(self).entries() == old(self).entries().push((path, size)),
            !r ==> final(self).canonical_paths() == old(self).canonical_paths(),
            !r ==> final(self).entries() == old(self).entries(),
            final(self).other_count() == old(self).other_count(),
            final(self).canonical_paths().to_set() == old(self).canonical_paths().to_set().insert(
                canonical@,
            ),
    {
        if self.has_seen(&canonical) {
            assert(self.canonical_paths().to_set() =~= self.canonical_paths().to_set().insert(
                canonical@,
            ));
            return false;
        }
        let ghost old_paths = self.canonical_paths();
        self.seen.push(canonical);
        self.svg_entries.push((path, size));
        assert(self.canonical_paths() =~= old_paths.push(canonical@));
        let ghost np = self.canonical_paths();
        assert forall|x: Seq<char>| np.contains(x) <==> old_paths.contains(x) || x == canonical@ by {
            if old_paths.contains(x) {
                let i = choose|i: int| 0 <= i < old_paths.len() && old_paths[i] == x;
                assert(np[i] == x);
            }
            if x == canonical@ {
                assert(np[old_paths.len() as int] == x);
            }
            if np.contains(x) {
                let i = choose|i: int| 0 <= i < np.len() && np[i] == x;
                if i < old_paths.len() {
                    assert(old_paths[i] == x);
                }
            }
        }
        assert(np.to_set() =~= old_paths.to_set().insert(canonical@));
        true
    }

    /// The number of distinct matching files recorded.
    pub fn total_svg_count(&self) -> (r: usize)
        requires
            self.wf(),
        ensures
            r == self.entries().len(),
            r == self.canonical_paths().to_set().len(),
    {
        proof {
            self.canonical_paths().unique_seq_to_set();
        }
        self.svg_entries.len()
    }

    /// The recorded files a preview is drawn from, in preview order.
    pub fn preview_candidates(&self) -> (r: Vec<(String, u64)>)
        requires
            self.wf(),
        ensures
            r@.len() <= PREVIEW_LIMIT,
            r@.len() <= self.entries().len(),
            forall|a: int, b: int| 0 <= a < b < r@.len() ==> r@[a].1 >= r@[b].1,
            exists|order: Seq<usize>|
                {
                    &&& is_preview_order(sizes_of(self.entries()), order)
                    &&& order.len() == r@.len()
                    &&& forall|a: int|
                        0 <= a < order.len() ==> r@[a] == self.entries()[#[trigger] order[a] as int]
                },
    {
        let mut sizes: Vec<u64> = Vec::new();
        let mut i: usize = 0;
        while i < self.svg_entries.len()
            invariant
                i <= self.svg_entries@.len(),
                sizes@ =~= sizes_of(self.svg_entries@).subrange(0, i as int),
            decreases self.svg_entries@.len() - i,
        {
            sizes.push(self.svg_entries[i].1);
            i = i + 1;
        }
        assert(sizes@ =~= sizes_of(self.entries()));
        let order = preview_order(&sizes);
        let mut r: Vec<(String, u64)> = Vec::new();
        let mut a: usize = 0;
        while a < order.len()
            invariant
                a <= order@.len(),
                r@.len() == a,
                sizes@ == sizes_of(self.entries()),
                is_preview_order(sizes@, order@),
                forall|b: int| 0 <= b < a ==> r@[b] == self.entries()[#[trigger] order@[b] as int],
            decreases order@.len() - a,
        {
            let k = order[a];
            let (p, z) = &self.svg_entries[k];
            r.push((p.clone(), *z));
            a = a + 1;
        }
        proof {
            lemma_preview_order_within_entries(sizes@, order@);
        }
        assert forall|x: int, y: int| 0 <= x < y < r@.len() implies r@[x].1 >= r@[y].1 by {
            assert(ranks_before(sizes@, order@[x] as int, order@[y] as int));
        }
        r
    }

    /// The scan's result: `reads[k]` is what reading candidate `k` gave. A read that
    /// failed other than on invalid UTF-8 fails the scan, naming the first such
    /// candidate's path.
    pub fn finish(self, source_dir: String, cands: &Vec<(String, u64)>, reads: Vec<PreviewRead>) -> (r: Result<
        ScanResult,
        ThemeError,
    >)
        requires
            self.wf(),
            cands@.len() == reads@.len(),
        ensures
            (exists|k: int| 0 <= k < reads@.len() && #[trigger] reads@[k] is Failed) <==> r is Err,
            r matches Err(e) ==> exists|k: int|
                0 <= k < reads@.len() && #[trigger] reads@[k] is Failed && (forall|j: int|
                    0 <= j < k ==> !(#[trigger] reads@[j] is Failed)) && e == (ThemeError::Io {
                    path: cands@[k].0,
                    message: reads@[k]->Failed_0,
                }),
            r matches Ok(s) ==> {
                &&& s.source_dir == source_dir
                &&& s.total_svg_count == self.entries().len()
                &&& s.total_svg_count == self.canonical_paths().to_set().len()
                &&& s.non_svg_count == self.other_count()
                &&& s.preview_svgs@ == previewed(cands@, reads@)
            },
    {
        let total = self.total_svg_count();
        let n = cands.len();
        let mut out: Vec<SvgFile> = Vec::new();
        let mut k: usize = 0;
        while k < n
            invariant
                k <= n,
                n == cands@.len(),
                n == reads@.len(),
                out@ == previewed(cands@.subrange(0, k as int), reads@.subrange(0, k as int)),
                forall|j: int| 0 <= j < k ==> !(#[trigger] reads@[j] is Failed),
            decreases n - k,
        {
            let ghost c1 = cands@.subrange(0, k + 1);
            let ghost t1 = reads@.subrange(0, k + 1);
            assert(c1.drop_last() =~= cands@.subrange(0, k as int));
            assert(t1.drop_last() =~= reads@.subrange(0, k as int));
            match &reads[k] {
                PreviewRead::Text(t) => {
                    let (p, z) = &cands[k];
                    out.push(SvgFile { path: p.clone(), size: *z, content: t.clone() });
                },
                PreviewRead::NotUtf8 => {},
                PreviewRead::Failed(m) => {
                    let e = ThemeError::Io { path: cands[k].0.clone(), message: m.clone() };
                    assert(reads@[k as int] is Failed);
                    return Err(e);
                },
            }
            k = k + 1;
        }
        assert(cands@.subrange(0, n as int) =~= cands@);
        assert(reads@.subrange(0, n as int) =~= reads@);
        Ok(
            ScanResult {
                source_dir,
                preview_svgs: out,
                total_svg_count: total,
                non_svg_count: self.non_svg_count,
            },
        )
    }
}

} // verus!
