//! The text form of a map.
//!
//! A map text is a sequence of words separated by white space. A word that
//! begins with `M` paints cells: each further letter stands for the next
//! cell of the table, row by row, `0` for a free cell, `1` to `8` for that
//! cost, `9` for a wall. A word `Sx,y` opens a variant that starts at
//! `(x, y)`; a word `Ex,y` adds the goal `(x, y)` to the variant opened
//! last. Any other word is a remark.

use vstd::prelude::*;
use crate::algo::NODE_WALL;
use crate::maps::{GridMap, MapView, Variant, VariantView};
use crate::models::Coord;

verus! {

/// Why a text is no map.
#[derive(Debug, Clone, Copy, PartialEq, Eq, Structural)]
pub enum MapError {
    /// A painting word holds a letter other than a digit.
    UnexpectedCharacter,
    /// A cost is painted below the last row of the table.
    TooLong,
    /// The painted cells do not fill the table.
    TooShort,
    /// A coordinate is not two integers with a comma between them.
    InvalidCoord,
    /// A goal comes before any start.
    EndWithoutStart,
    /// There is no variant at all.
    NoVariants,
    /// A variant has no goal.
    VariantWithoutEnd,
    /// A goal lies outside the table.
    EndOutOfBounds,
    /// A goal lies on a wall.
    EndInWall,
    /// A start lies outside the table.
    StartOutOfBounds,
    /// A start lies on a wall.
    StartInWall,
}

/// The bytes that separate words: space, tab, line feed, vertical tab,
/// form feed, carriage return.
pub open spec fn is_space(b: u8) -> bool {
    b == 32 || 9 <= b <= 13
}

/// The words read so far and the word being read, after all of `text`.
pub open spec fn scanned(text: Seq<u8>) -> (Seq<Seq<u8>>, Seq<u8>)
    decreases text.len(),
{
    if text.len() == 0 {
        (Seq::empty(), Seq::empty())
    } else {
        let (done, word) = scanned(text.drop_last());
        if is_space(text.last()) {
            if word.len() > 0 {
                (done.push(word), Seq::empty())
            } else {
                (done, word)
            }
        } else {
            (done, word.push(text.last()))
        }
    }
}

/// The words of `text`: its maximal runs of bytes that are no spaces.
pub open spec fn words(text: Seq<u8>) -> Seq<Seq<u8>> {
    let (done, word) = scanned(text);
    if word.len() > 0 {
        done.push(word)
    } else {
        done
    }
}

/// `i` is the place of the first `b` in `s`, or the length of `s` if
/// there is none.
pub open spec fn is_first(s: Seq<u8>, b: u8, i: int) -> bool {
    &&& 0 <= i <= s.len()
    &&& i < s.len() ==> s[i] == b
    &&& forall|j: int| 0 <= j < i ==> s[j] != b
}

/// The place picked by [`is_first`].
pub open spec fn first_of(s: Seq<u8>, b: u8) -> int {
    choose|i: int| is_first(s, b, i)
}

pub proof fn lemma_first_unique(s: Seq<u8>, b: u8, i: int)
    requires
        is_first(s, b, i),
    ensures
        first_of(s, b) == i,
{
    let m = first_of(s, b);
    assert(is_first(s, b, m));
    if m < i {
        assert(s[m] != b);
    }
    if i < m {
        assert(s[i] != b);
    }
}

pub open spec fn is_digit(b: u8) -> bool {
    48 <= b <= 57
}

/// Every byte of `s` is a decimal digit.
pub open spec fn all_digits(s: Seq<u8>) -> bool {
    forall|i: int| 0 <= i < s.len() ==> is_digit(#[trigger] s[i])
}

/// The number that a sequence of decimal digits stands for.
pub open spec fn digits_value(s: Seq<u8>) -> int
    decreases s.len(),
{
    if s.len() == 0 {
        0
    } else {
        digits_value(s.drop_last()) * 10 + (s.last() - 48)
    }
}

/// The integer that `s` stands for: an optional sign, then one decimal
/// digit or more, with a value that fits `i32`. Nothing else is a number.
pub open spec fn number(s: Seq<u8>) -> Option<i32> {
    let signed = s.len() > 0 && (s[0] == 45 || s[0] == 43);
    let body = if signed {
        s.skip(1)
    } else {
        s
    };
    let value = if signed && s[0] == 45 {
        -digits_value(body)
    } else {
        digits_value(body)
    };
    if body.len() > 0 && all_digits(body) && i32::MIN <= value <= i32::MAX {
        Some(value as i32)
    } else {
        None
    }
}

/// The coordinate that `s` stands for: a number, a comma, a number, and
/// then nothing or a further comma with anything behind it.
pub open spec fn coord_of(s: Seq<u8>) -> Option<Coord> {
    let i = first_of(s, 44);
    if i == s.len() {
        None
    } else {
        let rest = s.skip(i + 1);
        let j = first_of(rest, 44);
        match (number(s.take(i)), number(rest.take(j))) {
            (Some(x), Some(y)) => Some(Coord { x, y }),
            _ => None,
        }
    }
}

/// A map in the making.
pub struct Draft {
    pub columns: int,
    pub rows: int,
    pub cost: Seq<Seq<i32>>,
    /// The column of the next cell to paint.
    pub x: int,
    /// The row of the next cell to paint.
    pub y: int,
    /// Whether the rest of the current word is skipped, because the table
    /// has been overrun.
    pub halted: bool,
    pub variants: Seq<VariantView>,
}

/// The draft before the first word: every cell free, no variant.
pub open spec fn blank(columns: int, rows: int) -> Draft {
    Draft {
        columns,
        rows,
        cost: Seq::new(columns as nat, |x: int| Seq::new(rows as nat, |y: int| 0i32)),
        x: 0,
        y: 0,
        halted: false,
        variants: Seq::empty(),
    }
}

/// The draft with the next cell set to `cost`; the cell has to exist.
pub open spec fn painted(d: Draft, cost: i32) -> Result<Draft, MapError> {
    if 0 <= d.x < d.columns && 0 <= d.y < d.rows {
        Ok(Draft { cost: d.cost.update(d.x, d.cost[d.x].update(d.y, cost)), ..d })
    } else {
        Err(MapError::TooLong)
    }
}

/// The draft moved on to the next cell: one column to the right, or to
/// the first column of the next row; past the row below the table the
/// rest of the word is skipped.
pub open spec fn moved(d: Draft) -> Draft {
    let wrapped = d.x + 1 >= d.columns;
    let x = if wrapped {
        0
    } else {
        d.x + 1
    };
    let y = if wrapped {
        d.y + 1
    } else {
        d.y
    };
    Draft { x, y, halted: y > d.rows, ..d }
}

/// What one letter of a painting word does.
pub open spec fn paint(d: Draft, letter: u8) -> Result<Draft, MapError> {
    if d.halted {
        Ok(d)
    } else if 49 <= letter <= 56 {
        match painted(d, (letter - 48) as i32) {
            Ok(e) => Ok(moved(e)),
            Err(e) => Err(e),
        }
    } else if letter == 57 {
        match painted(d, NODE_WALL) {
            Ok(e) => Ok(moved(e)),
            Err(e) => Err(e),
        }
    } else if letter == 48 {
        Ok(moved(d))
    } else {
        Err(MapError::UnexpectedCharacter)
    }
}

/// What the letters of a painting word do, one after the other.
pub open spec fn paint_all(d: Draft, letters: Seq<u8>) -> Result<Draft, MapError>
    decreases letters.len(),
{
    if letters.len() == 0 {
        Ok(d)
    } else {
        match paint_all(d, letters.drop_last()) {
            Ok(e) => paint(e, letters.last()),
            Err(e) => Err(e),
        }
    }
}

/// What one word does to the draft.
pub open spec fn feed(d: Draft, word: Seq<u8>) -> Result<Draft, MapError> {
    if word.len() == 0 {
        Ok(d)
    } else if word[0] == 77 {
        paint_all(Draft { halted: false, ..d }, word.skip(1))
    } else if word[0] == 83 {
        match coord_of(word.skip(1)) {
            Some(start) => Ok(
                Draft { variants: d.variants.push(VariantView { start, ends: Seq::empty() }), ..d },
            ),
            None => Err(MapError::InvalidCoord),
        }
    } else if word[0] == 69 {
        if d.variants.len() == 0 {
            Err(MapError::EndWithoutStart)
        } else {
            match coord_of(word.skip(1)) {
                Some(end) => {
                    let last = d.variants.last();
                    Ok(
                        Draft {
                            variants: d.variants.update(
                                d.variants.len() - 1,
                                VariantView { ends: last.ends.push(end), ..last },
                            ),
                            ..d
                        },
                    )
                },
                None => Err(MapError::InvalidCoord),
            }
        }
    } else {
        Ok(d)
    }
}

/// What the words do, one after the other.
pub open spec fn feed_all(d: Draft, list: Seq<Seq<u8>>) -> Result<Draft, MapError>
    decreases list.len(),
{
    if list.len() == 0 {
        Ok(d)
    } else {
        match feed_all(d, list.drop_last()) {
            Ok(e) => feed(e, list.last()),
            Err(e) => Err(e),
        }
    }
}

/// What is wrong with the cell `c` as a goal, if anything.
pub open spec fn end_fault(d: Draft, c: Coord) -> Option<MapError> {
    if !c.in_bounds(d.columns, d.rows) {
        Some(MapError::EndOutOfBounds)
    } else if d.cost[c.x as int][c.y as int] == NODE_WALL {
        Some(MapError::EndInWall)
    } else {
        None
    }
}

/// The first fault among the goals `ends`, if any.
pub open spec fn ends_fault(d: Draft, ends: Seq<Coord>) -> Option<MapError>
    decreases ends.len(),
{
    if ends.len() == 0 {
        None
    } else {
        match ends_fault(d, ends.drop_last()) {
            Some(e) => Some(e),
            None => end_fault(d, ends.last()),
        }
    }
}

/// What is wrong with a variant, if anything: it has no goal, or a goal
/// is at fault, or the start lies outside the table or on a wall.
pub open spec fn variant_fault(d: Draft, v: VariantView) -> Option<MapError> {
    if v.ends.len() == 0 {
        Some(MapError::VariantWithoutEnd)
    } else {
        match ends_fault(d, v.ends) {
            Some(e) => Some(e),
            None => if !v.start.in_bounds(d.columns, d.rows) {
                Some(MapError::StartOutOfBounds)
            } else if d.cost[v.start.x as int][v.start.y as int] == NODE_WALL {
                Some(MapError::StartInWall)
            } else {
                None
            },
        }
    }
}

/// The first fault among the variants `list`, if any.
pub open spec fn variants_fault(d: Draft, list: Seq<VariantView>) -> Option<MapError>
    decreases list.len(),
{
    if list.len() == 0 {
        None
    } else {
        match variants_fault(d, list.drop_last()) {
            Some(e) => Some(e),
            None => variant_fault(d, list.last()),
        }
    }
}

/// The map that `text` stands for on a table of `columns` by `rows`
/// cells, or the first reason why it stands for none.
pub open spec fn parsed(text: Seq<u8>, columns: int, rows: int) -> Result<MapView, MapError> {
    match feed_all(blank(columns, rows), words(text)) {
        Err(e) => Err(e),
        Ok(d) => if d.y < rows {
            Err(MapError::TooShort)
        } else if d.variants.len() == 0 {
            Err(MapError::NoVariants)
        } else {
            match variants_fault(d, d.variants) {
                Some(e) => Err(e),
                None => Ok(MapView { variants: d.variants, cost: d.cost }),
            }
        },
    }
}

/// A list of byte vectors as a list of byte sequences.
pub open spec fn words_view(list: Seq<Vec<u8>>) -> Seq<Seq<u8>> {
    Seq::new(list.len(), |i: int| list[i]@)
}

/// A table of columns as the model sees it.
pub open spec fn table_view(cost: Seq<Vec<i32>>) -> Seq<Seq<i32>> {
    Seq::new(cost.len(), |x: int| cost[x]@)
}

/// A list of variants as the model sees it.
pub open spec fn variants_view(list: Seq<Variant>) -> Seq<VariantView> {
    Seq::new(list.len(), |i: int| list[i]@)
}

/// The words of `text`.
pub fn split_words(text: &[u8]) -> (list: Vec<Vec<u8>>)
    ensures
        words_view(list@) == words(text@),
{
    let mut done: Vec<Vec<u8>> = Vec::new();
    let mut word: Vec<u8> = Vec::new();
    let mut i: usize = 0;
    assert(words_view(done@) =~= scanned(text@.take(0)).0);
    while i < text.len()
        invariant
            i <= text@.len(),
            words_view(done@) == scanned(text@.take(i as int)).0,
            word@ == scanned(text@.take(i as int)).1,
        decreases text@.len() - i,
    {
        let b = text[i];
        proof {
            assert(text@.take(i + 1).drop_last() =~= text@.take(i as int));
        }
        let ghost before = words_view(done@);
        if b == 32 || (9 <= b && b <= 13) {
            if word.len() > 0 {
                let ghost full = word@;
                done.push(word);
                word = Vec::new();
                proof {
                    assert(words_view(done@) =~= before.push(full));
                }
            }
        } else {
            let ghost short = word@;
            word.push(b);
            proof {
                assert(word@ =~= short.push(b));
            }
        }
        i += 1;
    }
    proof {
        assert(text@.take(i as int) =~= text@);
    }
    let ghost before = words_view(done@);
    if word.len() > 0 {
        let ghost full = word@;
        done.push(word);
        proof {
            assert(words_view(done@) =~= before.push(full));
        }
    }
    done
}

/// The bytes of `v` from `from` up to `to`.
fn piece(v: &Vec<u8>, from: usize, to: usize) -> (out: Vec<u8>)
    requires
        from <= to <= v@.len(),
    ensures
        out@ == v@.subrange(from as int, to as int),
{
    let mut out: Vec<u8> = Vec::new();
    let mut i: usize = from;
    while i < to
        invariant
            from <= i <= to <= v@.len(),
            out@ == v@.subrange(from as int, i as int),
        decreases to - i,
    {
        let ghost short = out@;
        out.push(v[i]);
        proof {
            assert(out@ =~= v@.subrange(from as int, i + 1));
        }
        i += 1;
    }
    out
}

/// The place of the first `b` in `s`, or the length of `s`.
fn find_first(s: &Vec<u8>, b: u8) -> (i: usize)
    ensures
        is_first(s@, b, i as int),
        i == first_of(s@, b),
{
    let mut i: usize = 0;
    while i < s.len()
        invariant
            i <= s@.len(),
            forall|j: int| 0 <= j < i ==> s@[j] != b,
        decreases s@.len() - i,
    {
        if s[i] == b {
            proof {
                lemma_first_unique(s@, b, i as int);
            }
            return i;
        }
        i += 1;
    }
    proof {
        lemma_first_unique(s@, b, i as int);
    }
    i
}

/// Digits only ever add to the value of what stands before them.
proof fn lemma_digits_grow(s: Seq<u8>, k: int)
    requires
        0 <= k <= s.len(),
        forall|i: int| 0 <= i < s.len() ==> is_digit(#[trigger] s[i]),
    ensures
        0 <= digits_value(s.take(k)) <= digits_value(s),
    decreases s.len() - k,
{
    if k == s.len() {
        assert(s.take(k) =~= s);
        lemma_digits_nonnegative(s);
    } else {
        lemma_digits_grow(s, k + 1);
        assert(s.take(k + 1).drop_last() =~= s.take(k));
        lemma_digits_nonnegative(s.take(k));
        assert(is_digit(s[k]));
    }
}

proof fn lemma_digits_nonnegative(s: Seq<u8>)
    requires
        forall|i: int| 0 <= i < s.len() ==> is_digit(#[trigger] s[i]),
    ensures
        0 <= digits_value(s),
    decreases s.len(),
{
    if s.len() > 0 {
        lemma_digits_nonnegative(s.drop_last());
        assert(is_digit(s[s.len() - 1]));
    }
}

/// The integer that `s` stands for, if it stands for one.
pub fn parse_number(s: &Vec<u8>) -> (n: Option<i32>)
    ensures
        n == number(s@),
{
    let signed = s.len() > 0 && (s[0] == 45 || s[0] == 43);
    let negative = signed && s[0] == 45;
    let from: usize = if signed { 1 } else { 0 };
    let ghost body = if signed {
        s@.skip(1)
    } else {
        s@
    };
    if from == s.len() {
        return None;
    }
    let mut acc: i64 = 0;
    let mut i: usize = from;
    while i < s.len()
        invariant
            from <= i <= s@.len(),
            signed == (s@.len() > 0 && (s@[0] == 45 || s@[0] == 43)),
            body == (if signed {
                s@.skip(1)
            } else {
                s@
            }),
            from == (if signed {
                1int
            } else {
                0int
            }),
            body.len() == s@.len() - from,
            forall|j: int| 0 <= j < body.len() ==> body[j] == s@[j + from],
            forall|j: int| 0 <= j < i - from ==> is_digit(#[trigger] body[j]),
            acc == digits_value(body.take(i - from)),
            0 <= acc <= 0x8000_0000,
        decreases s@.len() - i,
    {
        let b = s[i];
        proof {
            assert(body[i - from] == s@[(i - from) + from]);
        }
        if b < 48 || b > 57 {
            proof {
                assert(!is_digit(body[i - from]));
                assert(!all_digits(body));
            }
            return None;
        }
        proof {
            assert(body.take(i + 1 - from).drop_last() =~= body.take(i - from));
            assert(body.take(i + 1 - from).last() == b);
        }
        acc = acc * 10 + (b - 48) as i64;
        assert(acc == digits_value(body.take(i + 1 - from)));
        if acc > 0x8000_0000 {
            proof {
                if all_digits(body) {
                    lemma_digits_grow(body, i + 1 - from);
                    assert(digits_value(body) > 0x8000_0000);
                }
                assert(number(s@) is None);
            }
            return None;
        }
        i += 1;
    }
    proof {
        assert(body.take(i - from) =~= body);
        assert(all_digits(body));
    }
    let value: i64 = if negative { -acc } else { acc };
    if value < -0x8000_0000 || value > 0x7fff_ffff {
        None
    } else {
        Some(value as i32)
    }
}

/// The coordinate that `s` stands for, if it stands for one.
pub fn convert_chars_to_coords(s: &Vec<u8>) -> (c: Option<Coord>)
    ensures
        c == coord_of(s@),
{
    let i = find_first(s, 44);
    if i == s.len() {
        return None;
    }
    let rest = piece(s, i + 1, s.len());
    let j = find_first(&rest, 44);
    let first = piece(s, 0, i);
    let second = piece(&rest, 0, j);
    proof {
        assert(s@.skip(i + 1) =~= rest@);
        assert(s@.take(i as int) =~= first@);
        assert(rest@.take(j as int) =~= second@);
    }
    match (parse_number(&first), parse_number(&second)) {
        (Some(x), Some(y)) => Some(Coord { x, y }),
        _ => None,
    }
}

/// A table of `columns` by `rows` free cells.
fn blank_table(columns: usize, rows: usize) -> (cost: Vec<Vec<i32>>)
    ensures
        table_view(cost@) == blank(columns as int, rows as int).cost,
{
    let mut cost: Vec<Vec<i32>> = Vec::new();
    let mut x: usize = 0;
    while x < columns
        invariant
            x <= columns,
            cost@.len() == x,
            forall|i: int| 0 <= i < x ==> (#[trigger] cost@[i])@ == Seq::new(rows as nat, |y: int| 0i32),
        decreases columns - x,
    {
        let mut column: Vec<i32> = Vec::new();
        let mut y: usize = 0;
        while y < rows
            invariant
                y <= rows,
                column@.len() == y,
                forall|j: int| 0 <= j < y ==> column@[j] == 0,
            decreases rows - y,
        {
            column.push(0);
            y += 1;
        }
        assert(column@ =~= Seq::new(rows as nat, |y: int| 0i32));
        cost.push(column);
        x += 1;
    }
    assert(table_view(cost@) =~= blank(columns as int, rows as int).cost);
    cost
}

/// The table has `columns` columns of `rows` cells each.
pub open spec fn shaped(cost: Seq<Seq<i32>>, columns: int, rows: int) -> bool {
    &&& cost.len() == columns
    &&& forall|x: int| 0 <= x < cost.len() ==> (#[trigger] cost[x]).len() == rows
}

/// A draft under construction: the table, the cursor, and the variants.
struct Sketch {
    columns: usize,
    rows: usize,
    cost: Vec<Vec<i32>>,
    x: usize,
    /// The row of the next cell, counted no further than one past the row
    /// below the table.
    y: u128,
    halted: bool,
    variants: Vec<Variant>,
}

impl Sketch {
    /// The sketch stands for the draft `d`.
    spec fn models(&self, d: Draft) -> bool {
        &&& d.columns == self.columns
        &&& d.rows == self.rows
        &&& d.cost == table_view(self.cost@)
        &&& shaped(d.cost, d.columns, d.rows)
        &&& d.x == self.x
        &&& 0 <= d.x
        &&& d.x < d.columns || d.x == 0
        &&& 0 <= d.y
        &&& self.y == (if d.y > d.rows {
            d.rows + 1
        } else {
            d.y
        })
        &&& d.halted == self.halted
        &&& d.variants == variants_view(self.variants@)
    }

    /// Sets the next cell to `cost`.
    fn put(&mut self, cost: i32, Ghost(d): Ghost<Draft>) -> (r: Result<(), MapError>)
        requires
            old(self).models(d),
        ensures
            final(self).columns == old(self).columns,
            final(self).rows == old(self).rows,
            match r {
                Ok(_) => painted(d, cost) is Ok && final(self).models(painted(d, cost)->Ok_0),
                Err(e) => painted(d, cost) == Err::<Draft, MapError>(e),
            },
    {
        if self.x < self.columns && self.y < self.rows as u128 {
            let x = self.x;
            let y = self.y as usize;
            assert(d.cost[x as int] == self.cost@[x as int]@);
            self.cost[x][y] = cost;
            proof {
                let e = painted(d, cost)->Ok_0;
                assert(table_view(self.cost@) =~= e.cost);
            }
            Ok(())
        } else {
            Err(MapError::TooLong)
        }
    }

    /// Moves on to the next cell.
    fn step(&mut self, Ghost(d): Ghost<Draft>)
        requires
            old(self).models(d),
        ensures
            final(self).columns == old(self).columns,
            final(self).rows == old(self).rows,
            final(self).models(moved(d)),
    {
        if self.x + 1 >= self.columns {
            self.x = 0;
            if self.y <= self.rows as u128 {
                self.y = self.y + 1;
            }
        } else {
            self.x = self.x + 1;
        }
        self.halted = self.y > self.rows as u128;
    }

    /// Takes in one letter of a painting word.
    fn paint(&mut self, letter: u8, Ghost(d): Ghost<Draft>) -> (r: Result<(), MapError>)
        requires
            old(self).models(d),
        ensures
            final(self).columns == old(self).columns,
            final(self).rows == old(self).rows,
            match r {
                Ok(_) => paint(d, letter) is Ok && final(self).models(paint(d, letter)->Ok_0),
                Err(e) => paint(d, letter) == Err::<Draft, MapError>(e),
            },
    {
        if self.halted {
            return Ok(());
        }
        if 49 <= letter && letter <= 56 {
            match self.put((letter - 48) as i32, Ghost(d)) {
                Ok(_) => {
                    self.step(Ghost(painted(d, (letter - 48) as i32)->Ok_0));
                    Ok(())
                },
                Err(e) => Err(e),
            }
        } else if letter == 57 {
            match self.put(NODE_WALL, Ghost(d)) {
                Ok(_) => {
                    self.step(Ghost(painted(d, NODE_WALL)->Ok_0));
                    Ok(())
                },
                Err(e) => Err(e),
            }
        } else if letter == 48 {
            self.step(Ghost(d));
            Ok(())
        } else {
            Err(MapError::UnexpectedCharacter)
        }
    }

    /// Takes in one word.
    fn feed(&mut self, word: &Vec<u8>, Ghost(d): Ghost<Draft>) -> (r: Result<(), MapError>)
        requires
            old(self).models(d),
        ensures
            final(self).columns == old(self).columns,
            final(self).rows == old(self).rows,
            match r {
                Ok(_) => feed(d, word@) is Ok && final(self).models(feed(d, word@)->Ok_0),
                Err(e) => feed(d, word@) == Err::<Draft, MapError>(e),
            },
    {
        if word.len() == 0 {
            return Ok(());
        }
        let head = word[0];
        if head == 77 {
            self.halted = false;
            let ghost fresh = Draft { halted: false, ..d };
            let ghost letters = word@.skip(1);
            let ghost mut now = fresh;
            let mut i: usize = 1;
            assert(letters.take(0) =~= Seq::<u8>::empty());
            while i < word.len()
                invariant
                    1 <= i <= word@.len(),
                    letters == word@.skip(1),
                    word@[0] == 77,
                    fresh == (Draft { halted: false, ..d }),
                    self.columns == old(self).columns,
                    self.rows == old(self).rows,
                    self.models(now),
                    paint_all(fresh, letters.take(i - 1)) == Ok::<Draft, MapError>(now),
                decreases word@.len() - i,
            {
                proof {
                    assert(letters.take(i as int).drop_last() =~= letters.take(i - 1));
                    assert(letters.take(i as int).last() == word@[i as int]);
                }
                match self.paint(word[i], Ghost(now)) {
                    Ok(_) => {
                        proof {
                            now = paint(now, word@[i as int])->Ok_0;
                        }
                    },
                    Err(e) => {
                        proof {
                            assert(paint_all(fresh, letters.take(i as int)) == Err::<Draft, MapError>(e));
                            lemma_paint_fails(fresh, letters, i as int);
                        }
                        return Err(e);
                    },
                }
                i += 1;
            }
            proof {
                assert(letters.take(i - 1) =~= letters);
            }
            Ok(())
        } else if head == 83 {
            let tail = piece(word, 1, word.len());
            proof {
                assert(tail@ =~= word@.skip(1));
            }
            match convert_chars_to_coords(&tail) {
                Some(start) => {
                    self.variants.push(Variant { start, ends: Vec::new() });
                    proof {
                        let e = feed(d, word@)->Ok_0;
                        assert(variants_view(self.variants@) =~= e.variants);
                    }
                    Ok(())
                },
                None => Err(MapError::InvalidCoord),
            }
        } else if head == 69 {
            if self.variants.len() == 0 {
                return Err(MapError::EndWithoutStart);
            }
            let tail = piece(word, 1, word.len());
            proof {
                assert(tail@ =~= word@.skip(1));
            }
            match convert_chars_to_coords(&tail) {
                Some(end) => {
                    let at = self.variants.len() - 1;
                    assert(d.variants[at as int] == self.variants@[at as int]@);
                    self.variants[at].ends.push(end);
                    proof {
                        let e = feed(d, word@)->Ok_0;
                        assert(variants_view(self.variants@) =~= e.variants);
                    }
                    Ok(())
                },
                None => Err(MapError::InvalidCoord),
            }
        } else {
            Ok(())
        }
    }
}

/// Once a letter fails, the whole word fails with it.
proof fn lemma_paint_fails(d: Draft, letters: Seq<u8>, k: int)
    requires
        1 <= k <= letters.len(),
        paint_all(d, letters.take(k)) is Err,
    ensures
        paint_all(d, letters) == paint_all(d, letters.take(k)),
    decreases letters.len() - k,
{
    if k == letters.len() {
        assert(letters.take(k) =~= letters);
    } else {
        assert(letters.take(k + 1).drop_last() =~= letters.take(k));
        lemma_paint_fails(d, letters, k + 1);
    }
}

/// Once a word fails, the whole text fails with it.
proof fn lemma_feed_fails(d: Draft, list: Seq<Seq<u8>>, k: int)
    requires
        1 <= k <= list.len(),
        feed_all(d, list.take(k)) is Err,
    ensures
        feed_all(d, list) == feed_all(d, list.take(k)),
    decreases list.len() - k,
{
    if k == list.len() {
        assert(list.take(k) =~= list);
    } else {
        assert(list.take(k + 1).drop_last() =~= list.take(k));
        lemma_feed_fails(d, list, k + 1);
    }
}

/// What is wrong with the cell `c` as a goal, if anything.
fn check_end(cost: &Vec<Vec<i32>>, columns: usize, rows: usize, c: Coord, Ghost(d): Ghost<Draft>) -> (fault: Option<MapError>)
    requires
        d.columns == columns,
        d.rows == rows,
        d.cost == table_view(cost@),
        shaped(d.cost, d.columns, d.rows),
    ensures
        fault == end_fault(d, c),
{
    if c.x < 0 || c.y < 0 || c.x as usize >= columns || c.y as usize >= rows {
        Some(MapError::EndOutOfBounds)
    } else {
        assert(d.cost[c.x as int] == cost@[c.x as int]@);
        if cost[c.x as usize][c.y as usize] == NODE_WALL {
            Some(MapError::EndInWall)
        } else {
            None
        }
    }
}

/// What is wrong with a variant, if anything.
fn check_variant(cost: &Vec<Vec<i32>>, columns: usize, rows: usize, v: &Variant, Ghost(d): Ghost<Draft>) -> (fault: Option<MapError>)
    requires
        d.columns == columns,
        d.rows == rows,
        d.cost == table_view(cost@),
        shaped(d.cost, d.columns, d.rows),
    ensures
        fault == variant_fault(d, v@),
{
    if v.ends.len() == 0 {
        return Some(MapError::VariantWithoutEnd);
    }
    let mut i: usize = 0;
    assert(v.ends@.take(0) =~= Seq::<Coord>::empty());
    while i < v.ends.len()
        invariant
            i <= v.ends@.len(),
            d.columns == columns,
            d.rows == rows,
            d.cost == table_view(cost@),
            shaped(d.cost, d.columns, d.rows),
            ends_fault(d, v.ends@.take(i as int)) is None,
        decreases v.ends@.len() - i,
    {
        proof {
            assert(v.ends@.take(i + 1).drop_last() =~= v.ends@.take(i as int));
        }
        match check_end(cost, columns, rows, v.ends[i], Ghost(d)) {
            Some(e) => {
                proof {
                    assert(ends_fault(d, v.ends@.take(i + 1)) == Some(e));
                    lemma_ends_fault_stays(d, v.ends@, i + 1);
                }
                return Some(e);
            },
            None => {},
        }
        i += 1;
    }
    proof {
        assert(v.ends@.take(i as int) =~= v.ends@);
    }
    let c = v.start;
    if c.x < 0 || c.y < 0 || c.x as usize >= columns || c.y as usize >= rows {
        Some(MapError::StartOutOfBounds)
    } else {
        assert(d.cost[c.x as int] == cost@[c.x as int]@);
        if cost[c.x as usize][c.y as usize] == NODE_WALL {
            Some(MapError::StartInWall)
        } else {
            None
        }
    }
}

/// The first fault among goals is the first fault among all that follow.
proof fn lemma_ends_fault_stays(d: Draft, ends: Seq<Coord>, k: int)
    requires
        0 <= k <= ends.len(),
        ends_fault(d, ends.take(k)) is Some,
    ensures
        ends_fault(d, ends) == ends_fault(d, ends.take(k)),
    decreases ends.len() - k,
{
    if k == ends.len() {
        assert(ends.take(k) =~= ends);
    } else {
        assert(ends.take(k + 1).drop_last() =~= ends.take(k));
        lemma_ends_fault_stays(d, ends, k + 1);
    }
}

/// The first fault among variants is the first fault among all that follow.
proof fn lemma_variants_fault_stays(d: Draft, list: Seq<VariantView>, k: int)
    requires
        0 <= k <= list.len(),
        variants_fault(d, list.take(k)) is Some,
    ensures
        variants_fault(d, list) == variants_fault(d, list.take(k)),
    decreases list.len() - k,
{
    if k == list.len() {
        assert(list.take(k) =~= list);
    } else {
        assert(list.take(k + 1).drop_last() =~= list.take(k));
        lemma_variants_fault_stays(d, list, k + 1);
    }
}

/// Reads `text` as a map on a table of `columns` by `rows` cells.
pub fn parse_map(text: &[u8], columns: usize, rows: usize) -> (r: Result<GridMap, MapError>)
    ensures
        match r {
            Ok(map) => parsed(text@, columns as int, rows as int) == Ok::<MapView, MapError>(map@),
            Err(e) => parsed(text@, columns as int, rows as int) == Err::<MapView, MapError>(e),
        },
{
    let list = split_words(text);
    let ghost all = words(text@);
    let ghost first = blank(columns as int, rows as int);
    let mut sketch = Sketch {
        columns,
        rows,
        cost: blank_table(columns, rows),
        x: 0,
        y: 0,
        halted: false,
        variants: Vec::new(),
    };
    let ghost mut now = first;
    assert(variants_view(sketch.variants@) =~= first.variants);
    let mut i: usize = 0;
    assert(all.take(0) =~= Seq::<Seq<u8>>::empty());
    while i < list.len()
        invariant
            i <= list@.len(),
            all == words_view(list@),
            all == words(text@),
            first == blank(columns as int, rows as int),
            sketch.columns == columns,
            sketch.rows == rows,
            sketch.models(now),
            feed_all(first, all.take(i as int)) == Ok::<Draft, MapError>(now),
        decreases list@.len() - i,
    {
        proof {
            assert(all.take(i + 1).drop_last() =~= all.take(i as int));
            assert(all.take(i + 1).last() == list@[i as int]@);
        }
        match sketch.feed(&list[i], Ghost(now)) {
            Ok(_) => {
                proof {
                    now = feed(now, list@[i as int]@)->Ok_0;
                }
            },
            Err(e) => {
                proof {
                    assert(feed_all(first, all.take(i + 1)) == Err::<Draft, MapError>(e));
                    lemma_feed_fails(first, all, i + 1);
                }
                return Err(e);
            },
        }
        i += 1;
    }
    proof {
        assert(all.take(i as int) =~= all);
        assert(feed_all(first, words(text@)) == Ok::<Draft, MapError>(now));
    }
    if sketch.y < rows as u128 {
        return Err(MapError::TooShort);
    }
    if sketch.variants.len() == 0 {
        return Err(MapError::NoVariants);
    }
    let mut k: usize = 0;
    assert(now.variants.take(0) =~= Seq::<VariantView>::empty());
    while k < sketch.variants.len()
        invariant
            k <= sketch.variants@.len(),
            sketch.columns == columns,
            sketch.rows == rows,
            sketch.models(now),
            feed_all(blank(columns as int, rows as int), words(text@)) == Ok::<Draft, MapError>(now),
            now.y >= rows,
            now.variants.len() > 0,
            variants_fault(now, now.variants.take(k as int)) is None,
        decreases sketch.variants@.len() - k,
    {
        proof {
            assert(now.variants.take(k + 1).drop_last() =~= now.variants.take(k as int));
            assert(now.variants.take(k + 1).last() == sketch.variants@[k as int]@);
        }
        match check_variant(&sketch.cost, columns, rows, &sketch.variants[k], Ghost(now)) {
            Some(e) => {
                proof {
                    assert(variants_fault(now, now.variants.take(k + 1)) == Some(e));
                    lemma_variants_fault_stays(now, now.variants, k + 1);
                }
                return Err(e);
            },
            None => {},
        }
        k += 1;
    }
    proof {
        assert(now.variants.take(k as int) =~= now.variants);
    }
    let map = GridMap { variants: sketch.variants, cost: sketch.cost };
    proof {
        assert(map@.variants =~= now.variants);
        assert(map@.cost =~= now.cost);
    }
    Ok(map)
}

} // verus!
