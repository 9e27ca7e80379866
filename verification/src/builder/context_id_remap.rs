//! Frequency-ordered relabelling of connection-cost context IDs, so that
//! frequently used matrix cells cluster near the front of each row.
use vstd::prelude::*;

verus! {

/// Whether id `i` ranks before id `j` by `(count desc, id asc)`.
pub open spec fn ranked_before(hist: Seq<u64>, i: int, j: int) -> bool {
    hist[i] > hist[j] || (hist[i] == hist[j] && i < j)
}

/// How many of the ids `1..m` rank before `i`.
pub open spec fn rank_count(hist: Seq<u64>, i: int, m: int) -> int
    decreases m,
{
    if m <= 1 {
        0
    } else {
        rank_count(hist, i, m - 1) + if ranked_before(hist, m - 1, i) {
            1int
        } else {
            0int
        }
    }
}

/// The new id of `i`: 0 stays 0, the others take `1..n` in rank order.
pub open spec fn new_id(hist: Seq<u64>, i: int) -> int {
    if i == 0 {
        0
    } else {
        1 + rank_count(hist, i, hist.len() as int)
    }
}

proof fn lemma_rank_count_bounds(hist: Seq<u64>, i: int, m: int)
    requires
        1 <= i < hist.len(),
        m <= hist.len(),
    ensures
        0 <= rank_count(hist, i, m),
        rank_count(hist, i, m) <= if m > i { m - 2 } else if m >= 1 { m - 1 } else { 0 },
    decreases m,
{
    if m > 1 {
        lemma_rank_count_bounds(hist, i, m - 1);
    }
}

proof fn lemma_rank_count_monotone(hist: Seq<u64>, i: int, j: int, m: int)
    requires
        1 <= i < hist.len(),
        1 <= j < hist.len(),
        ranked_before(hist, i, j),
        m <= hist.len(),
    ensures
        rank_count(hist, i, m) <= rank_count(hist, j, m),
        m > i ==> rank_count(hist, i, m) < rank_count(hist, j, m),
    decreases m,
{
    if m > 1 {
        lemma_rank_count_monotone(hist, i, j, m - 1);
    }
}

/// The new ids order the ids by how often they occur: id 0 keeps 0, every
/// other id gets an id in `1..n`, and an id that occurs more often (or as
/// often, with a smaller old id) gets a smaller new id.
pub proof fn lemma_new_id_ranks(hist: Seq<u64>, i: int, j: int)
    requires
        1 <= i < hist.len(),
        1 <= j < hist.len(),
    ensures
        new_id(hist, 0) == 0,
        1 <= new_id(hist, i) <= hist.len() - 1,
        (hist[i] > hist[j] || (hist[i] == hist[j] && i < j)) ==> new_id(hist, i) < new_id(hist, j),
{
    lemma_rank_count_bounds(hist, i, hist.len() as int);
    if hist[i] > hist[j] || (hist[i] == hist[j] && i < j) {
        lemma_rank_count_monotone(hist, i, j, hist.len() as int);
    }
}

/// Builds the frequency-ordered permutation `perm[old_id] = new_id` from a
/// histogram of id occurrences: id 0 is pinned to 0, the other ids take
/// `1..n` ranked by `(count desc, id asc)`.
pub fn build_perm(hist: &[u64]) -> (r: Vec<u16>)
    ensures
        r@.len() == hist@.len(),
        forall|i: int| 0 <= i < hist@.len() ==> #[trigger] r@[i] == new_id(hist@, i) as u16,
{
    let n = hist.len();
    let mut perm: Vec<u16> = Vec::with_capacity(n);
    let mut i: usize = 0;
    while i < n
        invariant
            n == hist@.len(),
            i <= n,
            perm@.len() == i,
            forall|k: int| 0 <= k < i ==> #[trigger] perm@[k] == new_id(hist@, k) as u16,
        decreases n - i,
    {
        if i == 0 {
            perm.push(0);
        } else {
            let mut count: usize = 0;
            let mut j: usize = 1;
            while j < n
                invariant
                    n == hist@.len(),
                    1 <= i < n,
                    1 <= j <= n,
                    count == rank_count(hist@, i as int, j as int),
                decreases n - j,
            {
                proof {
                    lemma_rank_count_bounds(hist@, i as int, j as int);
                }
                if hist[j] > hist[i] || (hist[j] == hist[i] && j < i) {
                    count += 1;
                }
                j += 1;
            }
            proof {
                lemma_rank_count_bounds(hist@, i as int, n as int);
            }
            perm.push((count + 1) as u16);
        }
        i += 1;
    }
    perm
}

/// The relabelling is a bijective, order-preserving relabelling: id 0 stays
/// 0, every other id gets a new id in `1..n`, and one id ranks before
/// another by `(count desc, id asc)` exactly when its new id is smaller.
pub proof fn lemma_build_perm_ranks(hist: Seq<u64>, i: int, j: int)
    requires
        hist.len() <= 0x1_0000,
        0 <= i < hist.len(),
        0 <= j < hist.len(),
    ensures
        new_id(hist, 0) == 0,
        i >= 1 ==> 1 <= new_id(hist, i) < hist.len(),
        new_id(hist, i) as u16 == new_id(hist, i),
        i >= 1 && j >= 1 && i != j ==> (new_id(hist, i) < new_id(hist, j) <==> ranked_before(
            hist,
            i,
            j,
        )),
        i != j ==> new_id(hist, i) != new_id(hist, j),
{
    if i >= 1 {
        lemma_rank_count_bounds(hist, i, hist.len() as int);
    }
    if j >= 1 {
        lemma_rank_count_bounds(hist, j, hist.len() as int);
    }
    if i >= 1 && j >= 1 && i != j {
        if ranked_before(hist, i, j) {
            lemma_rank_count_monotone(hist, i, j, hist.len() as int);
        } else {
            assert(ranked_before(hist, j, i));
            lemma_rank_count_monotone(hist, j, i, hist.len() as int);
        }
    }
}

/// A pair of context-ID permutations, `perm[old_id] = new_id`.
#[derive(Debug, Clone)]
pub struct ContextIdRemap {
    /// Permutation of left-context IDs (the matrix backward axis).
    pub left: Vec<u16>,
    /// Permutation of right-context IDs (the matrix forward axis).
    pub right: Vec<u16>,
}

/// `hist` with `hist[idx]` incremented, grown with zeros first when it is
/// too short.
pub open spec fn bump_spec(hist: Seq<u64>, idx: int) -> Seq<u64> {
    let len = if idx < hist.len() { hist.len() as int } else { idx + 1 };
    Seq::new(
        len as nat,
        |k: int|
            if k == idx {
                ((if k < hist.len() { hist[k] as int } else { 0 }) + 1) as u64
            } else if k < hist.len() {
                hist[k]
            } else {
                0u64
            },
    )
}

/// Increments `hist[idx]`, growing the histogram with zeros first when it is
/// too short.
pub fn bump(hist: &mut Vec<u64>, idx: usize)
    requires
        idx < usize::MAX,
        idx < old(hist)@.len() ==> old(hist)@[idx as int] < u64::MAX,
    ensures
        final(hist)@ == bump_spec(old(hist)@, idx as int),
{
    let ghost n = old(hist)@.len();
    while hist.len() <= idx
        invariant
            idx < usize::MAX,
            n == old(hist)@.len(),
            hist@.len() >= n,
            n <= idx ==> hist@.len() <= idx + 1,
            n > idx ==> hist@ == old(hist)@,
            hist@.subrange(0, n as int) == old(hist)@,
            forall|k: int| n <= k < hist@.len() ==> #[trigger] hist@[k] == 0,
        decreases idx + 1 - hist@.len(),
    {
        hist.push(0);
        assert(hist@.subrange(0, n as int) =~= old(hist)@);
    }
    assert forall|k: int| 0 <= k < n implies hist@[k] == #[trigger] old(hist)@[k] by {
        assert(hist@.subrange(0, n as int)[k] == hist@[k]);
    }
    let v = hist[idx];
    hist.set(idx, v + 1);
    assert(hist@ =~= bump_spec(old(hist)@, idx as int));
}

/// Records one connection-matrix access in the two histograms: the
/// right-context id counts on the forward axis, the left-context id on the
/// backward axis.
pub fn record_access(
    hist_left: &mut Vec<u64>,
    hist_right: &mut Vec<u64>,
    forward_id: u32,
    backward_id: u32,
)
    requires
        (forward_id as int) < usize::MAX,
        (backward_id as int) < usize::MAX,
        (forward_id as int) < old(hist_right)@.len() ==> old(hist_right)@[forward_id as int]
            < u64::MAX,
        (backward_id as int) < old(hist_left)@.len() ==> old(hist_left)@[backward_id as int]
            < u64::MAX,
    ensures
        final(hist_right)@ == bump_spec(old(hist_right)@, forward_id as int),
        final(hist_left)@ == bump_spec(old(hist_left)@, backward_id as int),
{
    bump(hist_right, forward_id as usize);
    bump(hist_left, backward_id as usize);
}

} // verus!

verus! {

/// Checks that both axes of the connection matrix fit the `u16` id space;
/// a larger one is a content error.
pub fn check_axes(forward_size: u32, backward_size: u32) -> (r: crate::LinderaResult<()>)
    ensures
        r is Ok <==> forward_size <= 0x1_0000 && backward_size <= 0x1_0000,
        r matches Err(e) ==> e.kind == crate::error::LinderaErrorKind::Content,
{
    if forward_size > 0x1_0000 || backward_size > 0x1_0000 {
        return Err(
            crate::error::error_of(
                crate::error::LinderaErrorKind::Content,
                "connection matrix axis exceeds u16 range",
            ),
        );
    }
    Ok(())
}

/// The context id that column `index` of a record holds: the column,
/// trimmed, parsed as a `u16`; `None` when there is no such column or it
/// does not parse.
pub open spec fn record_id(record: Seq<String>, index: int) -> Option<int> {
    if 0 <= index < record.len() {
        crate::text::parse_int_spec(crate::text::trim_spec(record[index]@), false, 0, u16::MAX as int)
    } else {
        None
    }
}

/// The histogram after counting one record: its id in column `index`, when
/// it has one inside the axis, counted once more.
pub open spec fn count_record(hist: Seq<u64>, record: Seq<String>, index: int) -> Seq<u64> {
    match record_id(record, index) {
        Some(id) => if id < hist.len() {
            hist.update(id, (hist[id] + 1) as u64)
        } else {
            hist
        },
        None => hist,
    }
}

/// The histogram of the ids in column `index` of the records, over an axis
/// of `size` ids.
pub open spec fn id_histogram(records: Seq<Vec<String>>, index: int, size: int) -> Seq<u64>
    decreases records.len(),
{
    if records.len() == 0 {
        Seq::new(size as nat, |i: int| 0u64)
    } else {
        count_record(id_histogram(records.drop_last(), index, size), records.last()@, index)
    }
}

proof fn lemma_histogram_bounded(records: Seq<Vec<String>>, index: int, size: int)
    requires
        size >= 0,
    ensures
        id_histogram(records, index, size).len() == size,
        forall|i: int| 0 <= i < size ==> #[trigger] id_histogram(records, index, size)[i] <= records.len(),
    decreases records.len(),
{
    if records.len() > 0 {
        lemma_histogram_bounded(records.drop_last(), index, size);
    }
}

/// The context id in column `index` of a record.
fn record_context_id(record: &Vec<String>, index: usize) -> (r: Option<u16>)
    ensures
        match r {
            Some(id) => record_id(record@, index as int) == Some(id as int),
            None => record_id(record@, index as int) is None,
        },
{
    if index >= record.len() {
        return None;
    }
    let value = crate::text::trim(record[index].as_str());
    let cs = crate::text::chars_of(value.as_str());
    match crate::text::parse_decimal(cs.as_slice(), false, 0, 65535) {
        Some(v) => Some(v as u16),
        None => None,
    }
}

/// The histogram of the ids in column `index` of the records, over an axis
/// of `size` ids; ids outside the axis are not counted.
pub fn count_context_ids(records: &[Vec<String>], index: usize, size: usize) -> (r: Vec<u64>)
    ensures
        r@ == id_histogram(records@, index as int, size as int),
{
    let mut hist: Vec<u64> = Vec::new();
    let mut i: usize = 0;
    while i < size
        invariant
            i <= size,
            hist@ == Seq::new(i as nat, |k: int| 0u64),
        decreases size - i,
    {
        hist.push(0);
        assert(hist@ =~= Seq::new((i + 1) as nat, |k: int| 0u64));
        i += 1;
    }
    assert(records@.take(0) =~= Seq::<Vec<String>>::empty());
    let mut k: usize = 0;
    while k < records.len()
        invariant
            k <= records@.len(),
            hist@ == id_histogram(records@.take(k as int), index as int, size as int),
        decreases records@.len() - k,
    {
        proof {
            lemma_histogram_bounded(records@.take(k as int), index as int, size as int);
        }
        let ghost t = records@.take(k + 1);
        assert(t.drop_last() =~= records@.take(k as int));
        match record_context_id(&records[k], index) {
            Some(id) => {
                if (id as usize) < hist.len() {
                    let v = hist[id as usize];
                    assert(v <= k);
                    hist.set(id as usize, v + 1);
                }
            },
            None => {},
        }
        k += 1;
    }
    assert(records@.take(records@.len() as int) =~= records@);
    hist
}

/// The remap of both axes by the entry counts of the lexicon records: per
/// id, how many records carry it in the schema's `left_context_id` and
/// `right_context_id` columns. A schema without one of them, or an axis
/// beyond the `u16` range, is a content error.
pub fn remap_from_records(
    metadata: &crate::dictionary::metadata::Metadata,
    forward_size: u32,
    backward_size: u32,
    records: &[Vec<String>],
) -> (r: crate::LinderaResult<ContextIdRemap>)
    ensures
        match r {
            Ok(m) => {
                let li = crate::dictionary::schema::last_index_of(
                    metadata.dictionary_schema.fields@,
                    "left_context_id"@,
                    metadata.dictionary_schema.fields@.len() as int,
                );
                let ri = crate::dictionary::schema::last_index_of(
                    metadata.dictionary_schema.fields@,
                    "right_context_id"@,
                    metadata.dictionary_schema.fields@.len() as int,
                );
                &&& forward_size <= 0x1_0000 && backward_size <= 0x1_0000
                &&& li is Some && ri is Some
                &&& m.left@.len() == backward_size
                &&& m.right@.len() == forward_size
                &&& forall|i: int|
                    0 <= i < backward_size ==> #[trigger] m.left@[i] == new_id(
                        id_histogram(records@, li->0, backward_size as int),
                        i,
                    ) as u16
                &&& forall|i: int|
                    0 <= i < forward_size ==> #[trigger] m.right@[i] == new_id(
                        id_histogram(records@, ri->0, forward_size as int),
                        i,
                    ) as u16
            },
            Err(e) => e.kind == crate::error::LinderaErrorKind::Content,
        },
        r is Err <==> !(forward_size <= 0x1_0000 && backward_size <= 0x1_0000) || crate::dictionary::schema::last_index_of(
            metadata.dictionary_schema.fields@,
            "left_context_id"@,
            metadata.dictionary_schema.fields@.len() as int,
        ) is None || crate::dictionary::schema::last_index_of(
            metadata.dictionary_schema.fields@,
            "right_context_id"@,
            metadata.dictionary_schema.fields@.len() as int,
        ) is None,
{
    check_axes(forward_size, backward_size)?;
    let left_index = match metadata.dictionary_schema.get_field_index("left_context_id") {
        Some(i) => i,
        None => {
            return Err(
                crate::error::error_of(
                    crate::error::LinderaErrorKind::Content,
                    "schema has no left_context_id field; cannot compute context-id remap",
                ),
            );
        },
    };
    let right_index = match metadata.dictionary_schema.get_field_index("right_context_id") {
        Some(i) => i,
        None => {
            return Err(
                crate::error::error_of(
                    crate::error::LinderaErrorKind::Content,
                    "schema has no right_context_id field; cannot compute context-id remap",
                ),
            );
        },
    };
    let hist_left = count_context_ids(records, left_index, backward_size as usize);
    let hist_right = count_context_ids(records, right_index, forward_size as usize);
    proof {
        lemma_histogram_bounded(records@, left_index as int, backward_size as int);
        lemma_histogram_bounded(records@, right_index as int, forward_size as int);
    }
    Ok(ContextIdRemap { left: build_perm(hist_left.as_slice()), right: build_perm(hist_right.as_slice()) })
}

} // verus!

verus! {

/// The counts of a line of a frequency file: its whitespace-separated words
/// parsed as `u64`, a word that does not parse counting 0.
pub open spec fn freq_counts(line: Seq<char>) -> Seq<u64> {
    crate::text::words_spec(line).map_values(
        |w: Seq<char>|
            match crate::text::parse_int_spec(w, false, 0, u64::MAX as int) {
                Some(v) => v as u64,
                None => 0u64,
            },
    )
}

/// `counts` cut or padded with zeros to `size`.
pub open spec fn resized(counts: Seq<u64>, size: int) -> Seq<u64> {
    Seq::new(size as nat, |i: int| if i < counts.len() { counts[i] } else { 0u64 })
}

/// The two histograms of a context-id frequency file: after a header line,
/// a line of left-context counts and one of right-context counts, each cut
/// or padded with zeros to its axis.
pub open spec fn freq_histograms(content: Seq<char>, backward_size: int, forward_size: int) -> (Seq<u64>, Seq<u64>) {
    let lines = crate::text::lines_spec(content);
    let left = if lines.len() > 1 { freq_counts(lines[1]) } else { Seq::empty() };
    let right = if lines.len() > 2 { freq_counts(lines[2]) } else { Seq::empty() };
    (resized(left, backward_size), resized(right, forward_size))
}

/// The count written as word `i` of `line`: the word parsed as `u64`, 0
/// when it does not parse or the line has fewer words.
pub open spec fn word_count_at(line: Seq<char>, i: int) -> u64 {
    let words = crate::text::words_spec(line);
    if 0 <= i < words.len() {
        match crate::text::parse_int_spec(words[i], false, 0, u64::MAX as int) {
            Some(v) => v as u64,
            None => 0u64,
        }
    } else {
        0u64
    }
}

/// How a frequency file is read: its first line is a header; the left
/// (backward) histogram is the counts of the second line, the right
/// (forward) histogram those of the third, each count the number written at
/// its position (0 where nothing parses) and each histogram as long as its
/// axis. A file without such a line has all counts 0 on that axis.
pub proof fn lemma_freq_lines(content: Seq<char>, backward_size: int, forward_size: int)
    requires
        0 <= backward_size,
        0 <= forward_size,
    ensures
        freq_histograms(content, backward_size, forward_size).0.len() == backward_size,
        freq_histograms(content, backward_size, forward_size).1.len() == forward_size,
        forall|i: int|
            0 <= i < backward_size ==> #[trigger] freq_histograms(content, backward_size, forward_size).0[i] == if crate::text::lines_spec(
                content,
            ).len() > 1 {
                word_count_at(crate::text::lines_spec(content)[1], i)
            } else {
                0u64
            },
        forall|i: int|
            0 <= i < forward_size ==> #[trigger] freq_histograms(content, backward_size, forward_size).1[i] == if crate::text::lines_spec(
                content,
            ).len() > 2 {
                word_count_at(crate::text::lines_spec(content)[2], i)
            } else {
                0u64
            },
{
}

/// Two frequency files whose second lines agree give the same left
/// histogram, and two whose third lines agree the same right histogram,
/// whatever their other lines hold.
pub proof fn lemma_freq_axis_lines(c1: Seq<char>, c2: Seq<char>, backward_size: int, forward_size: int)
    requires
        0 <= backward_size,
        0 <= forward_size,
    ensures
        crate::text::lines_spec(c1).len() > 1 && crate::text::lines_spec(c2).len() > 1 && crate::text::lines_spec(c1)[1]
            == crate::text::lines_spec(c2)[1] ==> freq_histograms(c1, backward_size, forward_size).0 == freq_histograms(
            c2,
            backward_size,
            forward_size,
        ).0,
        crate::text::lines_spec(c1).len() > 2 && crate::text::lines_spec(c2).len() > 2 && crate::text::lines_spec(c1)[2]
            == crate::text::lines_spec(c2)[2] ==> freq_histograms(c1, backward_size, forward_size).1 == freq_histograms(
            c2,
            backward_size,
            forward_size,
        ).1,
{
    lemma_freq_lines(c1, backward_size, forward_size);
    lemma_freq_lines(c2, backward_size, forward_size);
    let (a1, b1) = freq_histograms(c1, backward_size, forward_size);
    let (a2, b2) = freq_histograms(c2, backward_size, forward_size);
    if crate::text::lines_spec(c1).len() > 1 && crate::text::lines_spec(c2).len() > 1 && crate::text::lines_spec(c1)[1]
        == crate::text::lines_spec(c2)[1] {
        assert(a1 =~= a2);
    }
    if crate::text::lines_spec(c1).len() > 2 && crate::text::lines_spec(c2).len() > 2 && crate::text::lines_spec(c1)[2]
        == crate::text::lines_spec(c2)[2] {
        assert(b1 =~= b2);
    }
}

fn line_counts(line: &str, size: usize) -> (r: Vec<u64>)
    ensures
        r@ == resized(freq_counts(line@), size as int),
{
    let words = crate::text::split_whitespace(line);
    let ghost counts = freq_counts(line@);
    let mut out: Vec<u64> = Vec::new();
    let mut i: usize = 0;
    while i < size
        invariant
            i <= size,
            crate::text::views_of(words@) == crate::text::words_spec(line@),
            counts == freq_counts(line@),
            out@ == resized(counts, size as int).take(i as int),
        decreases size - i,
    {
        let v = if i < words.len() {
            let cs = crate::text::chars_of(words[i].as_str());
            assert(crate::text::views_of(words@)[i as int] == words@[i as int]@);
            match crate::text::parse_u64(cs.as_slice()) {
                Some(v) => v,
                None => 0,
            }
        } else {
            0
        };
        out.push(v);
        assert(out@ =~= resized(counts, size as int).take(i + 1));
        i += 1;
    }
    assert(resized(counts, size as int).take(size as int) =~= resized(counts, size as int));
    out
}

/// Reads the histograms of a context-id frequency file.
pub fn parse_freq_content(content: &str, backward_size: usize, forward_size: usize) -> (r: (Vec<u64>, Vec<u64>))
    ensures
        (r.0@, r.1@) == freq_histograms(content@, backward_size as int, forward_size as int),
{
    let lines = crate::text::lines_of(content);
    proof {
        assert(crate::text::views_of(lines@).len() == lines@.len());
    }
    let left = if lines.len() > 1 {
        assert(crate::text::views_of(lines@)[1] == lines@[1]@);
        line_counts(lines[1].as_str(), backward_size)
    } else {
        line_counts("", backward_size)
    };
    let right = if lines.len() > 2 {
        assert(crate::text::views_of(lines@)[2] == lines@[2]@);
        line_counts(lines[2].as_str(), forward_size)
    } else {
        line_counts("", forward_size)
    };
    proof {
        reveal_strlit("");
        assert(crate::text::words_spec(""@) =~= Seq::<Seq<char>>::empty());
        assert(freq_counts(""@) =~= Seq::<u64>::empty());
    }
    (left, right)
}

/// The remap of both axes by a context-id frequency file; an axis beyond the
/// `u16` range is a content error.
pub fn remap_from_freq(content: &str, forward_size: u32, backward_size: u32) -> (r: crate::LinderaResult<ContextIdRemap>)
    ensures
        match r {
            Ok(m) => {
                let (hl, hr) = freq_histograms(content@, backward_size as int, forward_size as int);
                &&& forward_size <= 0x1_0000 && backward_size <= 0x1_0000
                &&& m.left@.len() == backward_size
                &&& m.right@.len() == forward_size
                &&& forall|i: int| 0 <= i < backward_size ==> #[trigger] m.left@[i] == new_id(hl, i) as u16
                &&& forall|i: int| 0 <= i < forward_size ==> #[trigger] m.right@[i] == new_id(hr, i) as u16
            },
            Err(e) => e.kind == crate::error::LinderaErrorKind::Content && !(forward_size <= 0x1_0000
                && backward_size <= 0x1_0000),
        },
{
    check_axes(forward_size, backward_size)?;
    let (hist_left, hist_right) = parse_freq_content(content, backward_size as usize, forward_size as usize);
    Ok(ContextIdRemap { left: build_perm(hist_left.as_slice()), right: build_perm(hist_right.as_slice()) })
}

} // verus!
