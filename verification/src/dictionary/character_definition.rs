//! Character categories (`char.def`): which categories each code point
//! belongs to, and how each category is handled for unknown words.
use vstd::prelude::*;

use crate::text::str_eq;

verus! {

/// How words of one character category are generated.
#[derive(Debug, Clone, Copy, PartialEq, Eq, Structural)]
pub struct CategoryData {
    /// Whether unknown words are generated even where a known word starts.
    pub invoke: bool,
    /// Whether characters of the category are grouped into one word.
    pub group: bool,
    /// How many characters long the generated words may be.
    pub length: u32,
}

/// The index of a character category.
#[derive(Debug, Clone, Copy, PartialEq, Eq, Structural, Hash, PartialOrd, Ord)]
pub struct CategoryId(pub usize);

/// Whether `b` is in ascending order.
pub open spec fn sorted(b: Seq<u32>) -> bool {
    forall|i: int, j: int| 0 <= i <= j < b.len() ==> b[i] <= b[j]
}

/// Whether `r` is the last index of `b` whose value is at most `target`.
pub open spec fn is_row_of(b: Seq<u32>, target: u32, r: int) -> bool {
    &&& 0 <= r < b.len()
    &&& b[r] <= target
    &&& (r + 1 == b.len() || b[r + 1] > target)
}

/// The row of a lookup table that covers `target`: the last boundary at or
/// below it.
pub open spec fn row_of(b: Seq<u32>, target: u32) -> int {
    choose|r: int| is_row_of(b, target, r)
}

/// In a sorted sequence the covering row is unique.
pub proof fn lemma_row_unique(b: Seq<u32>, target: u32, r1: int, r2: int)
    requires
        sorted(b),
        is_row_of(b, target, r1),
        is_row_of(b, target, r2),
    ensures
        r1 == r2,
{
    if r1 < r2 {
        assert(b[r1 + 1] <= b[r2]);
    } else if r2 < r1 {
        assert(b[r2 + 1] <= b[r1]);
    }
}

/// Finds the row covering `target`: the last index whose boundary is at
/// most `target`.
pub fn find_row(b: &Vec<u32>, target: u32) -> (r: usize)
    requires
        sorted(b@),
        b@.len() >= 1,
        b@[0] == 0,
    ensures
        is_row_of(b@, target, r as int),
        r as int == row_of(b@, target),
{
    let mut lo: usize = 0;
    let mut hi: usize = b.len();
    while hi - lo > 1
        invariant
            0 <= lo < hi <= b@.len(),
            b@[lo as int] <= target,
            hi == b@.len() || b@[hi as int] > target,
            sorted(b@),
        decreases hi - lo,
    {
        let mid = lo + (hi - lo) / 2;
        if b[mid] <= target {
            lo = mid;
        } else {
            hi = mid;
        }
    }
    proof {
        assert(is_row_of(b@, target, lo as int));
        let c = row_of(b@, target);
        lemma_row_unique(b@, target, lo as int, c);
    }
    lo
}

/// A table from code-point ranges to values: row `k` covers the code points
/// from `boundaries[k]` up to the next boundary.
pub struct LookupTable<T: Copy> {
    /// Ascending range starts; the first is 0.
    pub boundaries: Vec<u32>,
    /// The values of each row, in row order.
    pub values: Vec<Vec<T>>,
}

/// Sorts `v` ascending.
///
/// Calls `slice::sort_unstable`; the contract claims that the result is in
/// ascending order and holds the same values as before.
#[verifier::external_body]
fn sort_unstable_u32(v: &mut Vec<u32>)
    ensures
        sorted(final(v)@),
        final(v)@.to_multiset() == old(v)@.to_multiset(),
{
    v.sort_unstable();
}

/// The boundaries of a lookup table: the given range starts with 0 added
/// when it is missing, sorted ascending.
pub fn prepare_boundaries(boundaries: Vec<u32>) -> (r: Vec<u32>)
    ensures
        sorted(r@),
        r@.len() >= 1,
        r@[0] == 0,
        r@.to_multiset() == (if boundaries@.contains(0) {
            boundaries@
        } else {
            boundaries@.push(0)
        }).to_multiset(),
{
    let mut boundaries = boundaries;
    let mut has_zero = false;
    let mut i: usize = 0;
    while i < boundaries.len()
        invariant
            i <= boundaries@.len(),
            has_zero <==> exists|j: int| 0 <= j < i && boundaries@[j] == 0,
        decreases boundaries@.len() - i,
    {
        if boundaries[i] == 0 {
            has_zero = true;
        }
        i += 1;
    }
    let ghost before = boundaries@;
    if !has_zero {
        boundaries.push(0);
        assert(boundaries@.contains(0)) by {
            assert(boundaries@[boundaries@.len() - 1] == 0);
        }
    } else {
        let ghost j = choose|j: int| 0 <= j < i && before[j] == 0;
        assert(before[j] == 0);
    }
    assert(boundaries@.contains(0));
    proof {
        assert(boundaries@.to_multiset().count(0) > 0) by {
            boundaries@.to_multiset_ensures();
        }
    }
    sort_unstable_u32(&mut boundaries);
    proof {
        boundaries@.to_multiset_ensures();
        assert(boundaries@.to_multiset().count(0) > 0);
        assert(boundaries@.contains(0));
        let w = choose|w: int| 0 <= w < boundaries@.len() && boundaries@[w] == 0;
        assert(boundaries@[0] <= boundaries@[w]);
    }
    boundaries
}

impl<T: Copy> LookupTable<T> {
    /// Whether the table is well formed: sorted boundaries starting at 0,
    /// one row of values per boundary.
    pub open spec fn wf(&self) -> bool {
        &&& sorted(self.boundaries@)
        &&& self.boundaries@.len() >= 1
        &&& self.boundaries@[0] == 0
        &&& self.values@.len() == self.boundaries@.len()
    }

    /// The values that cover `target`.
    pub open spec fn eval_spec(&self, target: u32) -> Seq<T> {
        self.values@[row_of(self.boundaries@, target)]@
    }

    /// Builds a table from range starts, computing each row with `funct`
    /// from its boundary; 0 is added as a boundary when it is missing, and
    /// the boundaries are sorted.
    pub fn from_fn<F: Fn(u32) -> Vec<T>>(boundaries: Vec<u32>, funct: F) -> (r: LookupTable<T>)
        requires
            forall|c: u32| #[trigger] funct.requires((c,)),
        ensures
            r.wf(),
            r.boundaries@.to_multiset() == (if boundaries@.contains(0) {
                boundaries@
            } else {
                boundaries@.push(0)
            }).to_multiset(),
            forall|k: int|
                0 <= k < r.values@.len() ==> funct.ensures(
                    (r.boundaries@[k],),
                    #[trigger] r.values@[k],
                ),
    {
        let boundaries = prepare_boundaries(boundaries);
        let mut values: Vec<Vec<T>> = Vec::new();
        let mut k: usize = 0;
        while k < boundaries.len()
            invariant
                k <= boundaries@.len(),
                values@.len() == k,
                forall|c: u32| #[trigger] funct.requires((c,)),
                forall|j: int|
                    0 <= j < k ==> funct.ensures((boundaries@[j],), #[trigger] values@[j]),
            decreases boundaries@.len() - k,
        {
            let output = funct(boundaries[k]);
            values.push(output);
            k += 1;
        }
        LookupTable { boundaries, values }
    }

    /// The values of the row that covers `target`.
    pub fn eval(&self, target: u32) -> (r: &[T])
        requires
            self.wf(),
        ensures
            r@ == self.eval_spec(target),
    {
        let idx = find_row(&self.boundaries, target);
        self.values[idx].as_slice()
    }
}

/// A table gives for a code point the row of the last boundary at or below
/// it; where the boundaries are distinct, it gives for each boundary the row
/// computed for that boundary.
pub proof fn lemma_eval_row<T: Copy>(t: LookupTable<T>, x: u32, j: int)
    requires
        t.wf(),
        0 <= j < t.boundaries@.len(),
        t.boundaries@[j] <= x,
        j + 1 == t.boundaries@.len() || t.boundaries@[j + 1] > x,
    ensures
        t.eval_spec(x) == t.values@[j]@,
{
    assert(is_row_of(t.boundaries@, x, j));
    lemma_row_unique(t.boundaries@, x, row_of(t.boundaries@, x), j);
}

/// Where the boundaries of a table are distinct, the values that cover a
/// boundary are the row computed for it.
pub proof fn lemma_eval_at_boundary<T: Copy>(t: LookupTable<T>, j: int)
    requires
        t.wf(),
        0 <= j < t.boundaries@.len(),
        forall|a: int, b: int| 0 <= a < b < t.boundaries@.len() ==> t.boundaries@[a] != t.boundaries@[b],
    ensures
        t.eval_spec(t.boundaries@[j]) == t.values@[j]@,
{
    if j + 1 < t.boundaries@.len() {
        assert(t.boundaries@[j] <= t.boundaries@[j + 1]);
        assert(t.boundaries@[j] != t.boundaries@[j + 1]);
    }
    lemma_eval_row(t, t.boundaries@[j], j);
}

} // verus!

verus! {

/// Number of code points covered by the flat category table (the Basic
/// Multilingual Plane).
pub const FLAT_TABLE_LEN: usize = 0x10000;

/// Most categories one code point can have in a flat table entry.
pub const FLAT_MAX_ROW_LEN: usize = 0xFF;

/// Largest pool offset a flat table entry can hold.
pub const FLAT_MAX_OFFSET: usize = 0xFF_FFFF;

/// The pool offset stored in a flat table entry.
pub open spec fn packed_offset(p: u32) -> int {
    (p >> 8u32) as int
}

/// The number of categories stored in a flat table entry.
pub open spec fn packed_len(p: u32) -> int {
    (p & 0xFFu32) as int
}

proof fn lemma_pack(offset: u32, len: u32)
    requires
        offset <= 0xFF_FFFF,
        len <= 0xFF,
    ensures
        packed_offset((offset << 8u32) | len) == offset,
        packed_len((offset << 8u32) | len) == len,
{
    assert((((offset << 8u32) | len) >> 8u32) == offset) by (bit_vector)
        requires
            offset <= 0xFF_FFFF,
            len <= 0xFF,
    ;
    assert((((offset << 8u32) | len) & 0xFFu32) == len) by (bit_vector)
        requires
            len <= 0xFF,
    ;
}

/// Whether entry `p` of a flat table addresses exactly `row` in `pool`.
pub open spec fn entry_addresses(pool: Seq<CategoryId>, p: u32, row: Seq<CategoryId>) -> bool {
    &&& packed_offset(p) + packed_len(p) <= pool.len()
    &&& pool.subrange(packed_offset(p), packed_offset(p) + packed_len(p)) == row
}

/// The character definition: category flags and names, and the table from
/// code points to categories, with a flat index over the Basic Multilingual
/// Plane for constant-time lookups.
pub struct CharacterDefinition {
    /// Per-category flags, by category id.
    pub category_definitions: Vec<CategoryData>,
    /// Category names, by category id.
    pub category_names: Vec<String>,
    /// Code-point ranges to categories.
    pub mapping: LookupTable<CategoryId>,
    /// The rows of `mapping` back to back: the pool that `flat_index`
    /// slices.
    pub flat_categories: Vec<CategoryId>,
    /// Per BMP code point, `offset << 8 | len` into `flat_categories`;
    /// empty when the flat table is not built.
    pub flat_index: Vec<u32>,
}

impl CharacterDefinition {
    /// Whether the flat table, when built, gives for each BMP code point
    /// exactly the row of `mapping` that covers it.
    pub open spec fn flat_ok(&self) -> bool {
        self.flat_index@.len() == 0 || (self.flat_index@.len() == FLAT_TABLE_LEN && forall|cp: int|
            0 <= cp < FLAT_TABLE_LEN ==> entry_addresses(
                self.flat_categories@,
                #[trigger] self.flat_index@[cp],
                self.mapping.values@[row_of(self.mapping.boundaries@, cp as u32)]@,
            ))
    }

    /// Whether the definition is well formed: its table is, and so is the
    /// flat index.
    pub open spec fn wf(&self) -> bool {
        self.mapping.wf() && self.flat_ok()
    }

    /// The categories of the code point `cp`.
    pub open spec fn categories_of(&self, cp: u32) -> Seq<CategoryId> {
        self.mapping.eval_spec(cp)
    }

    /// Creates a definition from its parts and builds the flat table.
    pub fn new(
        category_definitions: Vec<CategoryData>,
        category_names: Vec<String>,
        mapping: LookupTable<CategoryId>,
    ) -> (r: Self)
        requires
            mapping.wf(),
        ensures
            r.wf(),
            r.flat_index@.len() > 0 <==> flat_fits(mapping.values@),
            r.category_definitions == category_definitions,
            r.category_names == category_names,
            r.mapping == mapping,
    {
        let mut definition = CharacterDefinition {
            category_definitions,
            category_names,
            mapping,
            flat_categories: Vec::new(),
            flat_index: Vec::new(),
        };
        definition.build_flat_table();
        definition
    }

    /// Builds the flat table from `mapping`; leaves it empty when a row is
    /// longer or the pool larger than an entry can address.
    pub fn build_flat_table(&mut self)
        requires
            old(self).mapping.wf(),
        ensures
            final(self).wf(),
            final(self).flat_index@.len() > 0 <==> flat_fits(old(self).mapping.values@),
            final(self).mapping == old(self).mapping,
            final(self).category_definitions == old(self).category_definitions,
            final(self).category_names == old(self).category_names,
    {
        let (pool, index) = flat_table_of(&self.mapping);
        self.flat_categories = pool;
        self.flat_index = index;
    }

    /// The category names, by category id.
    pub fn categories(&self) -> (r: &[String])
        ensures
            r@ == self.category_names@,
    {
        self.category_names.as_slice()
    }

    /// The flags of a category.
    pub fn lookup_definition(&self, category_id: CategoryId) -> (r: &CategoryData)
        requires
            category_id.0 < self.category_definitions@.len(),
        ensures
            *r == self.category_definitions@[category_id.0 as int],
    {
        &self.category_definitions[category_id.0]
    }

    /// The name of a category.
    pub fn category_name(&self, category_id: CategoryId) -> (r: &str)
        requires
            category_id.0 < self.category_names@.len(),
        ensures
            r@ == self.category_names@[category_id.0 as int]@,
    {
        self.category_names[category_id.0].as_str()
    }

    /// The id of the first category called `name`, if any.
    pub fn category_id_by_name(&self, name: &str) -> (r: Option<CategoryId>)
        ensures
            match r {
                Some(id) => id.0 < self.category_names@.len() && self.category_names@[id.0 as int]@
                    == name@ && forall|j: int|
                    0 <= j < id.0 ==> (#[trigger] self.category_names@[j])@ != name@,
                None => forall|j: int|
                    0 <= j < self.category_names@.len() ==> (#[trigger] self.category_names@[j])@
                        != name@,
            },
    {
        let mut i: usize = 0;
        while i < self.category_names.len()
            invariant
                i <= self.category_names@.len(),
                forall|j: int| 0 <= j < i ==> (#[trigger] self.category_names@[j])@ != name@,
            decreases self.category_names@.len() - i,
        {
            if str_eq(self.category_names[i].as_str(), name) {
                return Some(CategoryId(i));
            }
            i += 1;
        }
        None
    }

    /// The categories of the character `c`, in the order its row lists them.
    pub fn lookup_categories(&self, c: char) -> (r: &[CategoryId])
        requires
            self.wf(),
        ensures
            r@ == self.categories_of(c as u32),
    {
        let cp = c as u32;
        if (cp as usize) < FLAT_TABLE_LEN && self.flat_index.len() > 0 {
            let packed = self.flat_index[cp as usize];
            let offset = (packed >> 8u32) as usize;
            let len = (packed & 0xFFu32) as usize;
            let n = self.flat_categories.len();
            proof {
                assert(entry_addresses(
                    self.flat_categories@,
                    self.flat_index@[cp as int],
                    self.mapping.values@[row_of(self.mapping.boundaries@, cp)]@,
                ));
            }
            let r = &self.flat_categories.as_slice()[offset..offset + len];
            r
        } else {
            self.mapping.eval(cp)
        }
    }

    /// The position `(offset, len)` of `c`'s categories in the flat pool,
    /// when the flat table serves `c`.
    pub fn lookup_categories_packed(&self, c: char) -> (r: Option<(u32, u16)>)
        requires
            self.wf(),
        ensures
            match r {
                Some((offset, len)) => (c as u32) < FLAT_TABLE_LEN && self.flat_index@.len() > 0
                    && offset + len <= self.flat_categories@.len()
                    && self.flat_categories@.subrange(offset as int, offset + len)
                    == self.categories_of(c as u32),
                None => (c as u32) >= FLAT_TABLE_LEN || self.flat_index@.len() == 0,
            },
    {
        let cp = c as u32;
        if (cp as usize) < FLAT_TABLE_LEN && self.flat_index.len() > 0 {
            let packed = self.flat_index[cp as usize];
            proof {
                assert(entry_addresses(
                    self.flat_categories@,
                    self.flat_index@[cp as int],
                    self.mapping.values@[row_of(self.mapping.boundaries@, cp)]@,
                ));
                assert((packed & 0xFFu32) <= 0xFF) by (bit_vector);
            }
            Some((packed >> 8u32, (packed & 0xFFu32) as u16))
        } else {
            None
        }
    }

    /// The category at `idx` of the flat pool.
    pub fn flat_category(&self, idx: usize) -> (r: CategoryId)
        requires
            idx < self.flat_categories@.len(),
        ensures
            r == self.flat_categories@[idx as int],
    {
        self.flat_categories[idx]
    }
}

/// The number of values in all of `rows`.
pub open spec fn total_len(rows: Seq<Vec<CategoryId>>) -> int
    decreases rows.len(),
{
    if rows.len() == 0 {
        0
    } else {
        total_len(rows.drop_last()) + rows.last()@.len()
    }
}

/// Whether every row of `rows` fits a flat table entry: at most
/// `FLAT_MAX_ROW_LEN` values, starting at most at `FLAT_MAX_OFFSET`.
pub open spec fn flat_fits(rows: Seq<Vec<CategoryId>>) -> bool {
    forall|k: int|
        0 <= k < rows.len() ==> (#[trigger] rows[k])@.len() <= FLAT_MAX_ROW_LEN && total_len(
            rows.take(k),
        ) <= FLAT_MAX_OFFSET
}

/// Appends the values of `row` to `pool`.
fn append_row(pool: &mut Vec<CategoryId>, row: &Vec<CategoryId>)
    ensures
        final(pool)@ == old(pool)@ + row@,
{
    let mut j: usize = 0;
    while j < row.len()
        invariant
            j <= row@.len(),
            pool@ == old(pool)@ + row@.take(j as int),
        decreases row@.len() - j,
    {
        pool.push(row[j]);
        j += 1;
        assert(pool@ =~= old(pool)@ + row@.take(j as int));
    }
    assert(row@.take(row@.len() as int) =~= row@);
}

proof fn lemma_append_keeps_entries(
    pool: Seq<CategoryId>,
    row: Seq<CategoryId>,
    packed: Seq<u32>,
    rows: Seq<Vec<CategoryId>>,
    k: int,
)
    requires
        packed.len() == k,
        k <= rows.len(),
        forall|j: int| 0 <= j < k ==> entry_addresses(pool, #[trigger] packed[j], rows[j]@),
    ensures
        forall|j: int| 0 <= j < k ==> entry_addresses(pool + row, #[trigger] packed[j], rows[j]@),
{
    assert forall|j: int| 0 <= j < k implies entry_addresses(
        pool + row,
        #[trigger] packed[j],
        rows[j]@,
    ) by {
        let q = packed[j];
        assert(entry_addresses(pool, q, rows[j]@));
        assert((pool + row).subrange(packed_offset(q), packed_offset(q) + packed_len(q))
            =~= pool.subrange(packed_offset(q), packed_offset(q) + packed_len(q)));
    }
}

/// The flat table of `mapping`: the pool of its rows back to back and one
/// entry per BMP code point; both empty when a row is longer or the pool
/// larger than an entry can address.
pub fn flat_table_of(mapping: &LookupTable<CategoryId>) -> (r: (Vec<CategoryId>, Vec<u32>))
    requires
        mapping.wf(),
    ensures
        r.1@.len() == 0 <==> !flat_fits(mapping.values@),
        r.1@.len() == 0 || (r.1@.len() == FLAT_TABLE_LEN && forall|cp: int|
            0 <= cp < FLAT_TABLE_LEN ==> entry_addresses(
                r.0@,
                #[trigger] r.1@[cp],
                mapping.values@[row_of(mapping.boundaries@, cp as u32)]@,
            )),
{
    let mut pool: Vec<CategoryId> = Vec::new();
    let mut packed_rows: Vec<u32> = Vec::new();
    let nrows = mapping.values.len();
    let mut k: usize = 0;
    while k < nrows
        invariant
            nrows == mapping.values@.len(),
            k <= nrows,
            packed_rows@.len() == k,
            pool@.len() == total_len(mapping.values@.take(k as int)),
            forall|j: int|
                0 <= j < k ==> (#[trigger] mapping.values@[j])@.len() <= FLAT_MAX_ROW_LEN
                    && total_len(mapping.values@.take(j)) <= FLAT_MAX_OFFSET,
            forall|j: int|
                0 <= j < k ==> entry_addresses(
                    pool@,
                    #[trigger] packed_rows@[j],
                    mapping.values@[j]@,
                ),
        decreases nrows - k,
    {
        let offset = pool.len();
        let row_len = mapping.values[k].len();
        if row_len > FLAT_MAX_ROW_LEN || offset > FLAT_MAX_OFFSET {
            assert(!flat_fits(mapping.values@)) by {
                assert(mapping.values@[k as int]@.len() == row_len);
            }
            return (Vec::new(), Vec::new());
        }
        let ghost pool_before = pool@;
        append_row(&mut pool, &mapping.values[k]);
        let p: u32 = ((offset as u32) << 8u32) | (row_len as u32);
        proof {
            lemma_pack(offset as u32, row_len as u32);
            lemma_append_keeps_entries(pool_before, mapping.values@[k as int]@, packed_rows@, mapping.values@, k as int);
            assert(pool@.subrange(offset as int, offset + row_len) =~= mapping.values@[k as int]@);
        }
        packed_rows.push(p);
        k += 1;
        proof {
            let t = mapping.values@.take(k as int);
            assert(t.drop_last() =~= mapping.values@.take(k - 1));
            assert(t.last() == mapping.values@[k - 1]);
        }
    }
    proof {
        assert(mapping.values@.take(nrows as int) =~= mapping.values@);
        assert(flat_fits(mapping.values@));
    }
    let mut index: Vec<u32> = Vec::new();
    let mut cp: u32 = 0;
    while cp < FLAT_TABLE_LEN as u32
        invariant
            mapping.wf(),
            nrows == mapping.values@.len(),
            packed_rows@.len() == nrows,
            forall|j: int|
                0 <= j < nrows ==> entry_addresses(
                    pool@,
                    #[trigger] packed_rows@[j],
                    mapping.values@[j]@,
                ),
            cp <= FLAT_TABLE_LEN,
            index@.len() == cp,
            forall|c: int|
                0 <= c < cp ==> entry_addresses(
                    pool@,
                    #[trigger] index@[c],
                    mapping.values@[row_of(mapping.boundaries@, c as u32)]@,
                ),
        decreases FLAT_TABLE_LEN - cp,
    {
        let row = find_row(&mapping.boundaries, cp);
        index.push(packed_rows[row]);
        cp += 1;
    }
    (pool, index)
}


/// The flat table agrees with the range table: for every character, the
/// categories that the flat lookup returns are those of the row covering
/// its code point.
pub proof fn lemma_flat_lookup_matches_table(d: &CharacterDefinition, cp: u32)
    requires
        d.wf(),
        cp < FLAT_TABLE_LEN,
        d.flat_index@.len() > 0,
    ensures
        d.flat_categories@.subrange(
            packed_offset(d.flat_index@[cp as int]),
            packed_offset(d.flat_index@[cp as int]) + packed_len(d.flat_index@[cp as int]),
        ) == d.mapping.eval_spec(cp),
{
    assert(entry_addresses(
        d.flat_categories@,
        d.flat_index@[cp as int],
        d.mapping.values@[row_of(d.mapping.boundaries@, cp as u32)]@,
    ));
}

} // verus!
