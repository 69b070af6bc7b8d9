//! The score cache: every guess of a vocabulary scored against every secret.
//!
//! The cache is a square table over one ordering of one vocabulary. Cell
//! `(g, s)` holds the code of the pattern that word `g` gets against word `s`.
//! A table read back from bytes is not trusted: it is used only where its
//! size fits the vocabulary at hand, and a cell that holds no pattern code is
//! never turned into a pattern. What was saved loads back as it was.
use crate::pattern::{
    calculate_pattern, lemma_pattern_code_round_trip, pattern_code, pattern_from_index,
    pattern_index, pattern_of_code, same_letters, score, PATTERN_COUNT,
};
use crate::pool::{consistent_with, lemma_filter_step, reduce, Entry};
use ndarray::Array2;
use vstd::prelude::*;

verus! {

/// A two-dimensional array of bytes, kept in an `ndarray::Array2<u8>`.
#[verifier::external_body]
pub struct Grid {
    cells: Array2<u8>,
}

#[verifier::external_type_specification]
#[verifier::external_body]
pub struct ExErrorKind(bincode::ErrorKind);

/// The cells of a two-dimensional array, row by row: `grid_cells(a)[r][c]` is
/// the element that `a[[r, c]]` reads.
pub uninterp spec fn grid_cells(grid: &Grid) -> Seq<Seq<u8>>;

/// The number of cells in each row of a two-dimensional array, which the
/// array has even where it has no row.
pub uninterp spec fn grid_width(grid: &Grid) -> nat;

/// The table that a sequence of bytes decodes to, if it decodes at all: its
/// cells, row by row, and the number of cells in each row.
pub uninterp spec fn decoded_grid(encoded: Seq<u8>) -> Option<(Seq<Seq<u8>>, nat)>;

/// A number written in `bytes` bytes, the least significant first.
pub open spec fn little_endian(value: nat, bytes: nat) -> Seq<u8>
    decreases bytes,
{
    if bytes == 0 {
        Seq::empty()
    } else {
        seq![(value % 256) as u8] + little_endian(value / 256, (bytes - 1) as nat)
    }
}

/// The bytes that a table is encoded as: the format version, then the number
/// of rows, the number of cells in each row and the number of all cells, each
/// in eight bytes, and then the cells, row by row.
pub open spec fn table_bytes(cells: Seq<Seq<u8>>, width: nat) -> Seq<u8> {
    seq![1u8] + little_endian(cells.len(), 8) + little_endian(width, 8) + little_endian(
        cells.len() * width,
        8,
    ) + cells.flatten()
}

/// A table of `rows` rows of `cols` cells each.
pub open spec fn is_table(cells: Seq<Seq<u8>>, rows: nat, cols: nat) -> bool {
    &&& cells.len() == rows
    &&& forall|r: int| 0 <= r < rows ==> (#[trigger] cells[r]).len() == cols
}

/// `ndarray::Array2::zeros`, for a square shape: the new array has `size`
/// rows of `size` cells, all zero. The call panics where the number of cells
/// overflows `isize`, which the precondition rules out.
#[verifier::external_body]
fn grid_zeros(size: usize) -> (grid: Grid)
    requires
        size * size <= isize::MAX,
    ensures
        grid_cells(&grid) == Seq::new(size as nat, |r: int| Seq::new(size as nat, |c: int| 0u8)),
        grid_width(&grid) == size,
{
    Grid { cells: Array2::zeros((size, size)) }
}

/// `ndarray::ArrayBase::dim`: the number of rows and the number of cells in
/// each row.
#[verifier::external_body]
fn grid_dim(grid: &Grid) -> (dim: (usize, usize))
    ensures
        dim.1 == grid_width(grid),
        is_table(grid_cells(grid), dim.0 as nat, dim.1 as nat),
{
    grid.cells.dim()
}

/// Indexing an `ndarray` array by `[[row, col]]`: reads that cell. The call
/// panics on an index out of bounds, which the precondition rules out.
#[verifier::external_body]
fn grid_get(grid: &Grid, row: usize, col: usize) -> (value: u8)
    requires
        row < grid_cells(grid).len(),
        col < grid_cells(grid)[row as int].len(),
    ensures
        value == grid_cells(grid)[row as int][col as int],
{
    grid.cells[[row, col]]
}

/// Assigning through the `[[row, col]]` index of an `ndarray` array: writes
/// that cell and no other, and leaves the shape as it is. The call panics on
/// an index out of bounds, which the precondition rules out.
#[verifier::external_body]
fn grid_set(grid: &mut Grid, row: usize, col: usize, value: u8)
    requires
        row < grid_cells(old(grid)).len(),
        col < grid_cells(old(grid))[row as int].len(),
    ensures
        grid_cells(final(grid)) == grid_cells(old(grid)).update(
            row as int,
            grid_cells(old(grid))[row as int].update(col as int, value),
        ),
        grid_width(final(grid)) == grid_width(old(grid)),
{
    grid.cells[[row, col]] = value;
}

/// `bincode::deserialize` for a two-dimensional array of bytes: whether the
/// bytes decode, and to which table, depends on the bytes alone. A table
/// that comes out was read from the front of the bytes: they start with the
/// bytes that the table is encoded as, and what follows is ignored.
#[verifier::external_body]
fn decode_grid(encoded: &[u8]) -> (decoded: Result<Grid, Box<bincode::ErrorKind>>)
    ensures
        decoded matches Ok(grid) ==> decoded_grid(encoded@) == Some(
            (grid_cells(&grid), grid_width(&grid)),
        ),
        decoded matches Ok(grid) ==> table_bytes(grid_cells(&grid), grid_width(&grid)).is_prefix_of(
            encoded@,
        ),
        decoded is Err ==> decoded_grid(encoded@) is None,
{
    bincode::deserialize(encoded).map(|cells| Grid { cells })
}

/// `bincode::serialize` for a two-dimensional array of bytes. The call
/// succeeds: it writes into memory, without a size limit, the format version,
/// the two sizes, and the cells as a sequence of known length, every number
/// in eight bytes with the least significant first. `bincode::deserialize`
/// reads the same table back from these bytes.
#[verifier::external_body]
fn encode_grid(grid: &Grid) -> (encoded: Result<Vec<u8>, Box<bincode::ErrorKind>>)
    ensures
        encoded is Ok,
        encoded matches Ok(bytes) ==> bytes@ == table_bytes(grid_cells(grid), grid_width(grid)),
        encoded matches Ok(bytes) ==> decoded_grid(bytes@) == Some(
            (grid_cells(grid), grid_width(grid)),
        ),
{
    bincode::serialize(&grid.cells)
}

/// Why a cache could not be read from bytes.
#[derive(Clone, Copy, Debug, PartialEq, Eq, Structural)]
pub enum CacheError {
    /// The bytes are not the encoding of a table.
    Undecodable,
}

/// One candidate of an indexed pool: the position of a word in the
/// vocabulary, and its weight.
pub type Slot = (usize, u64);

/// The table of precomputed scores.
pub struct ScoreMap {
    pub map: Grid,
}

/// What a table is, whatever holds it: its cells, row by row, and the number
/// of cells in each row.
pub struct Table {
    pub cells: Seq<Seq<u8>>,
    pub width: nat,
}

impl View for ScoreMap {
    type V = Table;

    /// The cells of the table and the width of its rows.
    open spec fn view(&self) -> Table {
        Table { cells: grid_cells(&self.map), width: grid_width(&self.map) }
    }
}

impl ScoreMap {
    /// The table is square with one row and one column per word of a
    /// vocabulary of `size` words.
    pub open spec fn fits(&self, size: nat) -> bool {
        &&& is_table(self@.cells, size, size)
        &&& self@.width == size
    }

    /// The table holds, for every pair of words of `vocabulary`, the code of
    /// the pattern that the first gets against the second.
    pub open spec fn is_faithful(&self, vocabulary: Seq<[u8; 5]>) -> bool {
        &&& self.fits(vocabulary.len())
        &&& forall|g: int, s: int|
            0 <= g < vocabulary.len() && 0 <= s < vocabulary.len() ==> #[trigger] self@.cells[g][s]
                == pattern_code(score(vocabulary[g]@, vocabulary[s]@))
    }

    /// What a lookup finds at `(guess_index, secret_index)`: the pattern
    /// whose code the cell holds, or nothing where there is no such cell or
    /// the cell holds no pattern code.
    pub open spec fn entry(&self, guess_index: int, secret_index: int) -> Option<Seq<u8>> {
        let cells = self@.cells;
        if 0 <= guess_index < cells.len() && 0 <= secret_index < cells[guess_index].len()
            && cells[guess_index][secret_index] < PATTERN_COUNT {
            Some(pattern_of_code(cells[guess_index][secret_index] as int))
        } else {
            None
        }
    }

    /// Scores every word of the vocabulary against every other and itself.
    pub fn build(vocabulary: &[[u8; 5]]) -> (cache: ScoreMap)
        requires
            vocabulary@.len() * vocabulary@.len() <= isize::MAX,
        ensures
            cache.is_faithful(vocabulary@),
    {
        let size = vocabulary.len();
        let mut map = grid_zeros(size);
        let mut g: usize = 0;
        while g < size
            invariant
                g <= size,
                size == vocabulary@.len(),
                grid_width(&map) == size,
                is_table(grid_cells(&map), size as nat, size as nat),
                forall|i: int, j: int|
                    0 <= i < g && 0 <= j < size ==> #[trigger] grid_cells(&map)[i][j]
                        == pattern_code(score(vocabulary@[i]@, vocabulary@[j]@)),
            decreases size - g,
        {
            let mut s: usize = 0;
            while s < size
                invariant
                    g < size,
                    s <= size,
                    size == vocabulary@.len(),
                    grid_width(&map) == size,
                    is_table(grid_cells(&map), size as nat, size as nat),
                    forall|i: int, j: int|
                        0 <= i < g && 0 <= j < size ==> #[trigger] grid_cells(&map)[i][j]
                            == pattern_code(score(vocabulary@[i]@, vocabulary@[j]@)),
                    forall|j: int|
                        0 <= j < s ==> #[trigger] grid_cells(&map)[g as int][j] == pattern_code(
                            score(vocabulary@[g as int]@, vocabulary@[j]@),
                        ),
                decreases size - s,
            {
                let pattern = calculate_pattern(&vocabulary[g], &vocabulary[s]);
                let code = pattern_index(&pattern);
                grid_set(&mut map, g, s, code);
                s += 1;
            }
            g += 1;
        }
        ScoreMap { map }
    }

    /// Tells whether the table has the size of a vocabulary of
    /// `vocabulary_len` words.
    pub fn matches_vocabulary(&self, vocabulary_len: usize) -> (fits: bool)
        ensures
            fits == self.fits(vocabulary_len as nat),
    {
        let (rows, cols) = grid_dim(&self.map);
        rows == vocabulary_len && cols == vocabulary_len
    }

    /// Reads the pattern of guess `guess_index` against secret
    /// `secret_index` from the table.
    pub fn lookup(&self, guess_index: usize, secret_index: usize) -> (pattern: Option<[u8; 5]>)
        ensures
            pattern matches Some(found) ==> self.entry(guess_index as int, secret_index as int)
                == Some(found@),
            pattern is None ==> self.entry(guess_index as int, secret_index as int) is None,
    {
        let (rows, cols) = grid_dim(&self.map);
        if guess_index >= rows || secret_index >= cols {
            return None;
        }
        let code = grid_get(&self.map, guess_index, secret_index);
        if code as usize >= PATTERN_COUNT {
            return None;
        }
        Some(pattern_from_index(code))
    }

    /// The test that a cached reduction applies to a candidate: does the
    /// table answer the guess against this candidate with `observed`?
    pub open spec fn answers_with(&self, guess_index: int, observed: Seq<u8>) -> spec_fn(
        Slot,
    ) -> bool {
        |slot: Slot| self.entry(guess_index, slot.0 as int) == Some(observed)
    }

    /// Reduces an indexed pool by table lookups: keeps exactly the
    /// candidates for which the table answers guess `guess_index` with
    /// `pattern`, in their order and with their weights.
    pub fn reduce(&self, pool: &[Slot], guess_index: usize, pattern: [u8; 5]) -> (reduced: Vec<
        Slot,
    >)
        ensures
            reduced@ == pool@.filter(self.answers_with(guess_index as int, pattern@)),
    {
        let mut reduced: Vec<Slot> = Vec::new();
        let mut i: usize = 0;
        let ghost keep = self.answers_with(guess_index as int, pattern@);
        assert(pool@.take(0).filter(keep) =~= Seq::empty()) by {
            reveal(Seq::filter);
        }
        while i < pool.len()
            invariant
                i <= pool.len(),
                keep == self.answers_with(guess_index as int, pattern@),
                reduced@ == pool@.take(i as int).filter(keep),
            decreases pool.len() - i,
        {
            let (word_index, weight) = pool[i];
            proof {
                lemma_filter_step(pool@, keep, i as int);
            }
            let kept = match self.lookup(guess_index, word_index) {
                Some(found) => same_letters(&found, &pattern),
                None => false,
            };
            if kept {
                reduced.push((word_index, weight));
            }
            i += 1;
        }
        assert(pool@.take(i as int) =~= pool@);
        reduced
    }
}

/// A faithful table answers every lookup within the vocabulary with the
/// score of the two words.
pub proof fn lemma_faithful_lookup(
    cache: ScoreMap,
    vocabulary: Seq<[u8; 5]>,
    guess_index: int,
    secret_index: int,
)
    requires
        cache.is_faithful(vocabulary),
        0 <= guess_index < vocabulary.len(),
        0 <= secret_index < vocabulary.len(),
    ensures
        cache.entry(guess_index, secret_index) == Some(
            score(vocabulary[guess_index]@, vocabulary[secret_index]@),
        ),
{
    let pattern = score(vocabulary[guess_index]@, vocabulary[secret_index]@);
    lemma_pattern_code_round_trip(pattern);
    assert(cache@.cells[guess_index][secret_index] == pattern_code(pattern));
}

/// The pool of words that an indexed pool stands for.
pub open spec fn words_of(pool: Seq<Slot>, vocabulary: Seq<[u8; 5]>) -> Seq<Entry> {
    Seq::new(pool.len(), |i: int| (vocabulary[pool[i].0 as int], pool[i].1))
}

/// With a faithful table, reducing by lookups is reducing by scores: the
/// candidates that are kept stand for the words that the plain reduction
/// keeps.
pub proof fn lemma_cached_reduce_agrees(
    cache: ScoreMap,
    vocabulary: Seq<[u8; 5]>,
    pool: Seq<Slot>,
    guess_index: int,
    observed: Seq<u8>,
)
    requires
        cache.is_faithful(vocabulary),
        0 <= guess_index < vocabulary.len(),
        forall|i: int| 0 <= i < pool.len() ==> (#[trigger] pool[i]).0 < vocabulary.len(),
    ensures
        words_of(pool.filter(cache.answers_with(guess_index, observed)), vocabulary) == reduce(
            words_of(pool, vocabulary),
            vocabulary[guess_index]@,
            observed,
        ),
    decreases pool.len(),
{
    let keep = cache.answers_with(guess_index, observed);
    let guess = vocabulary[guess_index]@;
    let words = words_of(pool, vocabulary);
    reveal(Seq::filter);
    if pool.len() == 0 {
        assert(words_of(pool.filter(keep), vocabulary) =~= reduce(words, guess, observed));
    } else {
        let rest = pool.drop_last();
        let last = pool.last();
        lemma_cached_reduce_agrees(cache, vocabulary, rest, guess_index, observed);
        lemma_faithful_lookup(cache, vocabulary, guess_index, last.0 as int);
        assert(words.drop_last() =~= words_of(rest, vocabulary));
        assert(words.last() == (vocabulary[last.0 as int], last.1));
        assert(keep(last) == consistent_with(guess, observed)(words.last()));
        if keep(last) {
            assert(words_of(rest.filter(keep).push(last), vocabulary) =~= words_of(
                rest.filter(keep),
                vocabulary,
            ).push(words.last()));
        }
    }
}

/// Reads a cache from its encoding.
pub fn load_score_map(encoded: &[u8]) -> (loaded: Result<ScoreMap, CacheError>)
    ensures
        loaded matches Ok(cache) ==> decoded_grid(encoded@) == Some(
            (cache@.cells, cache@.width),
        ),
        loaded matches Ok(cache) ==> table_bytes(cache@.cells, cache@.width).is_prefix_of(encoded@),
        loaded matches Err(error) ==> error == CacheError::Undecodable && decoded_grid(encoded@)
            is None,
{
    match decode_grid(encoded) {
        Ok(map) => Ok(ScoreMap { map }),
        Err(_) => Err(CacheError::Undecodable),
    }
}

/// Encodes a cache as bytes, from which it loads back as it is.
pub fn save_score_map(score_map: &ScoreMap) -> (saved: Vec<u8>)
    ensures
        saved@ == table_bytes(score_map@.cells, score_map@.width),
        decoded_grid(saved@) == Some((score_map@.cells, score_map@.width)),
{
    encode_grid(&score_map.map).unwrap()
}

/// Settles which cache to use for a vocabulary: the one that was loaded, if
/// one was and it has the size of the vocabulary, and a freshly built one
/// otherwise. The flag tells whether the loaded one is in use.
pub fn loaded_or_built(loaded: Option<ScoreMap>, vocabulary: &[[u8; 5]]) -> (settled: (
    ScoreMap,
    bool,
))
    requires
        vocabulary@.len() * vocabulary@.len() <= isize::MAX,
    ensures
        settled.0.fits(vocabulary@.len()),
        settled.1 <==> (loaded matches Some(found) && found.fits(vocabulary@.len())),
        settled.1 ==> loaded == Some(settled.0),
        !settled.1 ==> settled.0.is_faithful(vocabulary@),
{
    match loaded {
        Some(found) => {
            if found.matches_vocabulary(vocabulary.len()) {
                (found, true)
            } else {
                (ScoreMap::build(vocabulary), false)
            }
        },
        None => (ScoreMap::build(vocabulary), false),
    }
}

} // verus!
