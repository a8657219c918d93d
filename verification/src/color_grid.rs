use vstd::prelude::*;

verus! {

use vstd::std_specs::iter::IteratorSpec;

/// The colour of every new cell.
pub open spec fn default_color_spec() -> Seq<char> {
    "#000000"@
}

/// A cell colour of `#000000`.
pub fn default_color() -> (r: String)
    ensures
        r@ == default_color_spec(),
{
    "#000000".to_owned()
}

/// A position counted from the front when non-negative; from the back when
/// negative, where -1 is the place after the last item.
pub open spec fn resolve_index(index: int, len: int) -> int {
    if index < 0 {
        1 + index + len
    } else {
        index
    }
}

/// Where an insertion at `index` lands among `len` places (see
/// `resolve_index`), or `None` when it lands outside them.
fn insert_position(index: isize, len: usize) -> (r: Option<usize>)
    ensures
        match r {
            Some(at) => at == resolve_index(index as int, len as int) && at <= len,
            None => !(0 <= resolve_index(index as int, len as int) <= len),
        },
{
    if index < 0 {
        let back = (-(index + 1)) as usize;
        if back <= len {
            Some(len - back)
        } else {
            None
        }
    } else {
        let at = index as usize;
        if at <= len {
            Some(at)
        } else {
            None
        }
    }
}

/// `width` cells of the default colour.
pub open spec fn default_row(width: nat) -> Seq<Seq<char>> {
    Seq::new(width, |x: int| default_color_spec())
}

/// A change the user asks of the grid.
pub enum Msg {
    /// A row of default cells at `index` (see `resolve_index`).
    AddRow { index: isize },
    /// A column of default cells at `index` (see `resolve_index`).
    AddColumn { index: isize },
    /// Cell (`x`, `y`) takes `color`.
    SetColor { x: usize, y: usize, color: String },
}

/// A grid of colours, `height` rows of `width` cells, each a colour string.
pub struct ColorGrid {
    width: usize,
    height: usize,
    colors: Vec<Vec<String>>,
}

impl ColorGrid {
    /// The colours, row by row.
    pub closed spec fn cells(&self) -> Seq<Seq<Seq<char>>> {
        Seq::new(self.colors@.len(), |y: int| Seq::new(self.colors@[y]@.len(), |x: int| self.colors@[y]@[x]@))
    }

    pub closed spec fn spec_width(&self) -> nat {
        self.width as nat
    }

    pub closed spec fn spec_height(&self) -> nat {
        self.height as nat
    }

    /// `height` rows of `width` cells each.
    pub open spec fn wf(&self) -> bool {
        &&& self.cells().len() == self.spec_height()
        &&& forall|y: int| 0 <= y < self.spec_height() ==> (#[trigger] self.cells()[y]).len() == self.spec_width()
    }

    /// Whether `update` can apply `msg`: an inserted row or column must land
    /// within the grid or just after it (a column in a grid without rows
    /// lands nowhere, but the width must still fit in a `usize`), and a
    /// coloured cell must exist.
    pub open spec fn accepts(&self, msg: Msg) -> bool {
        match msg {
            Msg::AddRow { index } => 0 <= resolve_index(index as int, self.spec_height() as int)
                <= self.spec_height(),
            Msg::AddColumn { index } => {
                &&& self.spec_height() == 0 ==> self.spec_width() < usize::MAX
                &&& self.spec_height() > 0 ==> 0 <= resolve_index(index as int, self.spec_width() as int)
                    <= self.spec_width()
            },
            Msg::SetColor { x, y, color } => y < self.spec_height() && x < self.spec_width(),
        }
    }

    /// The grid after `update(msg)`, given that `accepts(msg)`.
    pub open spec fn updated(cells: Seq<Seq<Seq<char>>>, width: nat, height: nat, msg: Msg) -> Seq<Seq<Seq<char>>> {
        match msg {
            Msg::AddRow { index } => cells.insert(resolve_index(index as int, height as int), default_row(width)),
            Msg::AddColumn { index } => Seq::new(
                height,
                |y: int| cells[y].insert(resolve_index(index as int, width as int), default_color_spec()),
            ),
            Msg::SetColor { x, y, color } => cells.update(y as int, cells[y as int].update(x as int, color@)),
        }
    }

    /// Whether `update` can apply `msg` (see `accepts`).
    pub fn accepts_msg(&self, msg: &Msg) -> (r: bool)
        requires
            self.wf(),
        ensures
            r == self.accepts(*msg),
    {
        match msg {
            Msg::AddRow { index } => insert_position(*index, self.height).is_some(),
            Msg::AddColumn { index } => {
                if self.height == 0 {
                    self.width < usize::MAX
                } else {
                    insert_position(*index, self.width).is_some()
                }
            },
            Msg::SetColor { x, y, color } => *y < self.height && *x < self.width,
        }
    }

    /// A `width` by `height` grid of default cells.
    pub fn create(width: usize, height: usize) -> (r: Self)
        ensures
            r.wf(),
            r.spec_width() == width,
            r.spec_height() == height,
            r.cells() == Seq::new(height as nat, |y: int| default_row(width as nat)),
    {
        let mut colors: Vec<Vec<String>> = Vec::new();
        while colors.len() < height
            invariant
                colors@.len() <= height,
                forall|y: int| 0 <= y < colors@.len() ==> (#[trigger] colors@[y])@.len() == width
                    && forall|x: int| 0 <= x < width ==> (#[trigger] colors@[y]@[x])@ == default_color_spec(),
            decreases height - colors@.len(),
        {
            let mut row: Vec<String> = Vec::new();
            while row.len() < width
                invariant
                    row@.len() <= width,
                    forall|x: int| 0 <= x < row@.len() ==> (#[trigger] row@[x])@ == default_color_spec(),
                decreases width - row@.len(),
            {
                row.push(default_color());
            }
            colors.push(row);
        }
        let r = ColorGrid { width, height, colors };
        assert(r.cells() =~= Seq::new(height as nat, |y: int| default_row(width as nat))) by {
            assert forall|y: int| 0 <= y < height implies r.cells()[y] =~= default_row(width as nat) by {
                assert(r.colors@[y]@.len() == width);
            }
        }
        r
    }

    /// Applies `msg` and answers `true`: the grid is to be drawn again.
    pub fn update(&mut self, msg: Msg) -> (r: bool)
        requires
            old(self).wf(),
            old(self).accepts(msg),
        ensures
            r,
            final(self).wf(),
            final(self).cells() == Self::updated(old(self).cells(), old(self).spec_width(), old(self).spec_height(), msg),
            final(self).spec_width() == old(self).spec_width() + if msg is AddColumn { 1nat } else { 0nat },
            final(self).spec_height() == old(self).spec_height() + if msg is AddRow { 1nat } else { 0nat },
    {
        let ghost cells = self.cells();
        match msg {
            Msg::AddRow { index } => {
                let at = match insert_position(index, self.height) {
                    Some(at) => at,
                    None => {
                        return true;
                    },
                };
                let mut row: Vec<String> = Vec::new();
                while row.len() < self.width
                    invariant
                        row@.len() <= self.width,
                        forall|x: int| 0 <= x < row@.len() ==> (#[trigger] row@[x])@ == default_color_spec(),
                    decreases self.width - row@.len(),
                {
                    row.push(default_color());
                }
                self.colors.insert(at, row);
                self.height = self.colors.len();
                assert(self.cells() =~= cells.insert(at as int, default_row(self.width as nat))) by {
                    assert(self.cells()[at as int] =~= default_row(self.width as nat));
                    assert forall|y: int| 0 <= y < self.cells().len() && y != at implies self.cells()[y] =~= cells.insert(at as int, default_row(self.width as nat))[y] by {
                        if y < at {
                            assert(self.colors@[y] == old(self).colors@[y]);
                        } else {
                            assert(self.colors@[y] == old(self).colors@[y - 1]);
                        }
                    }
                }
                true
            },
            Msg::AddColumn { index } => {
                let at = match insert_position(index, self.width) {
                    Some(at) => at,
                    None => 0,
                };
                let mut y: usize = 0;
                while y < self.colors.len()
                    invariant
                        self.colors@.len() == old(self).colors@.len(),
                        self.width == old(self).width,
                        self.height == old(self).height,
                        cells == old(self).cells(),
                        old(self).wf(),
                        y <= self.colors@.len(),
                        self.height > 0 ==> at <= self.width,
                        forall|j: int| y <= j < self.colors@.len() ==> self.colors@[j] == old(self).colors@[j],
                        forall|j: int| 0 <= j < y ==> #[trigger] self.cells()[j] == cells[j].insert(at as int, default_color_spec()),
                    decreases self.colors@.len() - y,
                {
                    proof {
                        assert(old(self).cells()[y as int].len() == self.width);
                    }
                    let ghost prev = self.colors@;
                    let ghost prev_cells = self.cells();
                    self.colors[y].insert(at, default_color());
                    proof {
                        assert(self.cells()[y as int] =~= cells[y as int].insert(at as int, default_color_spec()));
                        assert forall|j: int| 0 <= j < y implies #[trigger] self.cells()[j] == cells[j].insert(
                            at as int,
                            default_color_spec(),
                        ) by {
                            assert(self.colors@[j] == prev[j]);
                            assert(prev_cells[j] == cells[j].insert(at as int, default_color_spec()));
                            assert(self.cells()[j] =~= prev_cells[j]);
                        }
                    }
                    y = y + 1;
                }
                let ghost done = self.cells();
                let width = if self.colors.len() > 0 {
                    proof {
                        assert(self.cells()[0] == cells[0].insert(at as int, default_color_spec()));
                        assert(cells[0].len() == self.width);
                    }
                    self.colors[0].len()
                } else {
                    self.width + 1
                };
                assert(done =~= Seq::new(old(self).height as nat, |y: int| cells[y].insert(at as int, default_color_spec()))) by {
                    assert forall|j: int| 0 <= j < self.height implies done[j] == cells[j].insert(at as int, default_color_spec()) by {
                        assert(self.cells()[j] == cells[j].insert(at as int, default_color_spec()));
                    }
                }
                self.width = width;
                assert(self.cells() == done);
                true
            },
            Msg::SetColor { x, y, color } => {
                let ghost c = color@;
                assert(cells[y as int].len() == self.width);
                self.colors[y][x] = color;
                assert(self.cells() =~= cells.update(y as int, cells[y as int].update(x as int, c))) by {
                    assert(self.cells()[y as int] =~= cells[y as int].update(x as int, c));
                }
                true
            },
        }
    }

    /// The number of cells in a row.
    pub fn width(&self) -> (r: usize)
        ensures
            r == self.spec_width(),
    {
        self.width
    }

    /// The number of rows.
    pub fn height(&self) -> (r: usize)
        ensures
            r == self.spec_height(),
    {
        self.height
    }

    /// The colour of cell (`x`, `y`).
    pub fn color(&self, x: usize, y: usize) -> (r: &String)
        requires
            self.wf(),
            y < self.spec_height(),
            x < self.spec_width(),
        ensures
            r@ == self.cells()[y as int][x as int],
    {
        assert(self.cells()[y as int].len() == self.width);
        &self.colors[y][x]
    }
}

/// Whether `c` is one of the ASCII digits `0` to `9`.
pub open spec fn is_digit(c: char) -> bool {
    '0' as u32 <= c as u32 <= '9' as u32
}

/// The value of a numeral whose characters are all digits.
pub open spec fn digits_value(s: Seq<char>) -> int
    decreases s.len(),
{
    if s.len() == 0 {
        0
    } else {
        digits_value(s.drop_last()) * 10 + (s.last() as u32 - '0' as u32)
    }
}

/// Whether every character of `s` is a digit.
pub open spec fn all_digits(s: Seq<char>) -> bool {
    forall|i: int| 0 <= i < s.len() ==> is_digit(#[trigger] s[i])
}

/// `s` without a leading `+`.
pub open spec fn unsigned_part(s: Seq<char>) -> Seq<char> {
    if s.len() > 0 && s[0] == '+' {
        s.drop_first()
    } else {
        s
    }
}

/// What `usize::from_str` makes of `s`: an optional `+`, then one digit or
/// more, whose value must fit in a `usize`.
pub open spec fn parse_usize_spec(s: Seq<char>) -> Option<usize> {
    let d = unsigned_part(s);
    if d.len() > 0 && all_digits(d) && digits_value(d) <= usize::MAX {
        Some(digits_value(d) as usize)
    } else {
        None
    }
}

/// What a cell's position attribute, `"<y> <x>"`, says.
pub enum Position {
    /// There is no space in it.
    Missing,
    /// A part around the first space is no number.
    Invalid,
    /// Row `y`, cell `x`.
    At { y: usize, x: usize },
}

/// The reading of `s`: split at its first space, both parts numbers.
pub open spec fn position_spec(s: Seq<char>) -> Position {
    match s.index_of_first(' ') {
        None => Position::Missing,
        Some(i) => match (parse_usize_spec(s.take(i)), parse_usize_spec(s.skip(i + 1))) {
            (Some(y), Some(x)) => Position::At { y, x },
            _ => Position::Invalid,
        },
    }
}

proof fn lemma_digits_value_grows(s: Seq<char>, i: int)
    requires
        0 <= i <= s.len(),
        all_digits(s),
    ensures
        digits_value(s) >= digits_value(s.take(i)),
        digits_value(s) >= 0,
    decreases s.len(),
{
    if s.len() > 0 {
        if i == s.len() {
            assert(s.take(i) =~= s);
            lemma_digits_value_grows(s.drop_last(), s.len() - 1);
        } else {
            lemma_digits_value_grows(s.drop_last(), i);
            assert(s.drop_last().take(i) =~= s.take(i));
        }
    }
}

/// The number that the characters of `cs` spell, as `usize::from_str` reads it.
pub fn parse_usize(cs: &Vec<char>) -> (r: Option<usize>)
    ensures
        r == parse_usize_spec(cs@),
{
    let len = cs.len();
    let start: usize = if len > 0 && cs[0] == '+' {
        1
    } else {
        0
    };
    let ghost d = unsigned_part(cs@);
    assert(d =~= cs@.subrange(start as int, len as int));
    if start >= len {
        return None;
    }
    let mut value: usize = 0;
    let mut i: usize = start;
    while i < len
        invariant
            len == cs@.len(),
            start < len,
            start <= i <= len,
            d =~= cs@.subrange(start as int, len as int),
            d == unsigned_part(cs@),
            forall|j: int| start <= j < i ==> is_digit(#[trigger] cs@[j]),
            value == digits_value(cs@.subrange(start as int, i as int)),
        decreases len - i,
    {
        let c = cs[i];
        if (c as u32) < ('0' as u32) || (c as u32) > ('9' as u32) {
            assert(!is_digit(d[i - start]));
            return None;
        }
        let digit = (c as u32 - '0' as u32) as usize;
        assert(cs@.subrange(start as int, i + 1).drop_last() =~= cs@.subrange(start as int, i as int));
        assert(cs@.subrange(start as int, i + 1).last() == c);
        assert(digits_value(cs@.subrange(start as int, i + 1)) == value * 10 + digit);
        match value.checked_mul(10) {
            Some(v) => match v.checked_add(digit) {
                Some(w) => {
                    value = w;
                },
                None => {
                    proof {
                        if all_digits(d) {
                            lemma_digits_value_grows(d, i + 1 - start);
                            assert(d.take(i + 1 - start) =~= cs@.subrange(start as int, i + 1));
                        }
                    }
                    return None;
                },
            },
            None => {
                proof {
                    if all_digits(d) {
                        lemma_digits_value_grows(d, i + 1 - start);
                        assert(d.take(i + 1 - start) =~= cs@.subrange(start as int, i + 1));
                    }
                }
                return None;
            },
        }
        i = i + 1;
    }
    assert(cs@.subrange(start as int, len as int) =~= d);
    Some(value)
}

/// Reads a cell's position attribute, `"<y> <x>"`: the text before the
/// first space is the row, the text after it the cell.
pub fn parse_position(s: &str) -> (r: Position)
    ensures
        r == position_spec(s@),
{
    let mut first: Vec<char> = Vec::new();
    let mut second: Vec<char> = Vec::new();
    let mut split = false;
    let ghost whole = s@;
    for c in it: s.chars()
        invariant
            !first@.contains(' '),
            it.seq() == whole,
            !split ==> first@ == whole.take(it.index()) && second@.len() == 0,
            split ==> first@ + seq![' '] + second@ == whole.take(it.index()),
    {
        if split {
            second.push(c);
        } else if c == ' ' {
            split = true;
        } else {
            first.push(c);
        }
        assert(whole.take(it.index() + 1) =~= whole.take(it.index()).push(c));
    }
    proof {
        whole.index_of_first_ensures(' ');
    }
    if !split {
        assert(first@ =~= whole);
        return Position::Missing;
    }
    proof {
        let i = first@.len() as int;
        assert(first@ + seq![' '] + second@ =~= whole);
        assert(whole[i] == ' ');
        assert(whole.take(i) =~= first@);
        assert(whole.skip(i + 1) =~= second@);
        assert(whole.contains(' '));
        let k = whole.index_of_first(' ').unwrap();
        if k < i {
            assert(first@[k] == ' ');
        }
    }
    let y = parse_usize(&first);
    let x = parse_usize(&second);
    match (y, x) {
        (Some(y), Some(x)) => Position::At { y, x },
        _ => Position::Invalid,
    }
}

/// `cells` has `height` rows of `width` cells each.
pub open spec fn grid_shape(cells: Seq<Seq<Seq<char>>>, width: nat, height: nat) -> bool {
    &&& cells.len() == height
    &&& forall|y: int| 0 <= y < height ==> (#[trigger] cells[y]).len() == width
}

/// Adding a row puts one row of default cells at the asked place and keeps
/// every other row, in order: rows before the place stay where they were,
/// rows from it on move down by one. The place is `index` counted from the
/// top when `index >= 0`, and `1 + index + height` when `index < 0`, so
/// that `-1` is after the last row.
pub proof fn lemma_add_row(cells: Seq<Seq<Seq<char>>>, width: nat, height: nat, index: isize)
    requires
        grid_shape(cells, width, height),
        index >= 0 ==> index <= height,
        index < 0 ==> 0 <= 1 + index + height,
    ensures
        ({
            let place = if index >= 0 { index as int } else { 1 + index + height };
            let r = ColorGrid::updated(cells, width, height, Msg::AddRow { index });
            &&& grid_shape(r, width, height + 1)
            &&& r[place] == default_row(width)
            &&& forall|y: int| 0 <= y < place ==> #[trigger] r[y] == cells[y]
            &&& forall|y: int| place < y <= height ==> #[trigger] r[y] == cells[y - 1]
        }),
{
}

/// The editor's buttons: adding a row at `-1` appends it below the last
/// row, and at `0` puts it above the first.
pub proof fn lemma_add_row_ends(cells: Seq<Seq<Seq<char>>>, width: nat, height: nat)
    requires
        grid_shape(cells, width, height),
    ensures
        ColorGrid::updated(cells, width, height, Msg::AddRow { index: -1isize }) == cells.push(default_row(width)),
        ColorGrid::updated(cells, width, height, Msg::AddRow { index: 0 }) == seq![default_row(width)] + cells,
{
    assert(ColorGrid::updated(cells, width, height, Msg::AddRow { index: -1isize }) =~= cells.push(default_row(width)));
    assert(ColorGrid::updated(cells, width, height, Msg::AddRow { index: 0 }) =~= seq![default_row(width)] + cells);
}

/// Adding a column puts one default cell into every row at the asked
/// place and keeps every other cell of the row, in order. The place is
/// `index` counted from the left when `index >= 0`, and
/// `1 + index + width` when `index < 0`, so that `-1` is after the last
/// column.
pub proof fn lemma_add_column(cells: Seq<Seq<Seq<char>>>, width: nat, height: nat, index: isize)
    requires
        grid_shape(cells, width, height),
        index >= 0 ==> index <= width,
        index < 0 ==> 0 <= 1 + index + width,
    ensures
        ({
            let place = if index >= 0 { index as int } else { 1 + index + width };
            let r = ColorGrid::updated(cells, width, height, Msg::AddColumn { index });
            &&& grid_shape(r, width + 1, height)
            &&& forall|y: int| 0 <= y < height ==> (#[trigger] r[y])[place] == default_color_spec()
            &&& forall|y: int, x: int| 0 <= y < height && 0 <= x < place ==> #[trigger] r[y][x] == cells[y][x]
            &&& forall|y: int, x: int| 0 <= y < height && place < x <= width ==> #[trigger] r[y][x] == cells[y][x
                - 1]
        }),
{
}

/// The editor's buttons: adding a column at `-1` appends a default cell to
/// the right end of every row, and at `0` puts one at the left end.
pub proof fn lemma_add_column_ends(cells: Seq<Seq<Seq<char>>>, width: nat, height: nat)
    requires
        grid_shape(cells, width, height),
    ensures
        forall|y: int| 0 <= y < height ==> #[trigger] ColorGrid::updated(
            cells,
            width,
            height,
            Msg::AddColumn { index: -1isize },
        )[y] == cells[y].push(default_color_spec()),
        forall|y: int| 0 <= y < height ==> #[trigger] ColorGrid::updated(
            cells,
            width,
            height,
            Msg::AddColumn { index: 0 },
        )[y] == seq![default_color_spec()] + cells[y],
{
    assert forall|y: int| 0 <= y < height implies #[trigger] ColorGrid::updated(
        cells,
        width,
        height,
        Msg::AddColumn { index: -1isize },
    )[y] == cells[y].push(default_color_spec()) by {
        assert(ColorGrid::updated(cells, width, height, Msg::AddColumn { index: -1isize })[y] =~= cells[y].push(
            default_color_spec(),
        ));
    }
    assert forall|y: int| 0 <= y < height implies #[trigger] ColorGrid::updated(
        cells,
        width,
        height,
        Msg::AddColumn { index: 0 },
    )[y] == seq![default_color_spec()] + cells[y] by {
        assert(ColorGrid::updated(cells, width, height, Msg::AddColumn { index: 0 })[y] =~= seq![
            default_color_spec(),
        ] + cells[y]);
    }
}

/// Setting a colour changes exactly one cell: cell (`x`, `y`) takes the
/// colour, every other cell, in row `y` and elsewhere, keeps its own, and
/// the grid keeps its shape.
pub proof fn lemma_set_color(cells: Seq<Seq<Seq<char>>>, width: nat, height: nat, x: usize, y: usize, color: String)
    requires
        grid_shape(cells, width, height),
        y < height,
        x < width,
    ensures
        ({
            let r = ColorGrid::updated(cells, width, height, Msg::SetColor { x, y, color });
            &&& grid_shape(r, width, height)
            &&& r[y as int][x as int] == color@
            &&& forall|y2: int, x2: int|
                0 <= y2 < height && 0 <= x2 < width && (y2 != y || x2 != x) ==> #[trigger] r[y2][x2]
                    == cells[y2][x2]
        }),
{
}

impl ColorGrid {
    /// A colour can be set exactly on the cells that exist: those that
    /// `color` can read.
    pub proof fn lemma_settable_cells(&self, x: usize, y: usize, color: String)
        requires
            self.wf(),
        ensures
            self.accepts(Msg::SetColor { x, y, color }) <==> (y < self.cells().len() && x < self.cells()[y as int].len()),
    {
    }

    /// The editor's buttons always fit: a row at either end, and a column
    /// at either end of a grid that has rows.
    pub proof fn lemma_buttons_fit(&self)
        requires
            self.wf(),
        ensures
            self.accepts(Msg::AddRow { index: 0isize }),
            self.accepts(Msg::AddRow { index: -1isize }),
            self.cells().len() > 0 ==> self.accepts(Msg::AddColumn { index: 0isize }),
            self.cells().len() > 0 ==> self.accepts(Msg::AddColumn { index: -1isize }),
    {
    }
}

/// The character for the digit `d`.
pub open spec fn digit_char(d: int) -> char {
    ('0' as u32 + d) as char
}

/// The decimal text of `n`, without leading zeros.
pub open spec fn decimal(n: nat) -> Seq<char>
    decreases n,
{
    if n < 10 {
        seq![digit_char(n as int)]
    } else {
        decimal(n / 10).push(digit_char((n % 10) as int))
    }
}

proof fn lemma_decimal_reads_back(n: nat)
    ensures
        decimal(n).len() > 0,
        all_digits(decimal(n)),
        digits_value(decimal(n)) == n,
        decimal(n)[0] != '+',
        decimal(n)[0] != ' ',
        !decimal(n).contains(' '),
    decreases n,
{
    if n < 10 {
        assert(digit_char(n as int) as u32 == '0' as u32 + n);
        assert(decimal(n).drop_last() =~= Seq::<char>::empty());
        assert(decimal(n).last() == digit_char(n as int));
        assert(digits_value(decimal(n)) == digits_value(Seq::<char>::empty()) * 10 + (digit_char(n as int) as u32 - '0' as u32));
    } else {
        lemma_decimal_reads_back(n / 10);
        let d = (n % 10) as int;
        assert(digit_char(d) as u32 == '0' as u32 + d);
        assert(decimal(n).drop_last() =~= decimal(n / 10));
        vstd::arithmetic::div_mod::lemma_fundamental_div_mod(n as int, 10);
        assert(n == (n / 10) * 10 + n % 10);
        assert(decimal(n).last() == digit_char(d));
        assert(digits_value(decimal(n)) == digits_value(decimal(n / 10)) * 10 + (digit_char(d) as u32 - '0' as u32));
        assert forall|i: int| 0 <= i < decimal(n).len() implies is_digit(#[trigger] decimal(n)[i]) by {
            if i < decimal(n).len() - 1 {
                assert(decimal(n)[i] == decimal(n / 10)[i]);
            }
        }
        assert(decimal(n)[0] == decimal(n / 10)[0]);
        if decimal(n).contains(' ') {
            let k = choose|k: int| 0 <= k < decimal(n).len() && decimal(n)[k] == ' ';
            assert(is_digit(decimal(n)[k]));
        }
    }
}

/// Reading the decimal text of any `usize` gives that number back.
pub proof fn lemma_parse_decimal(n: usize)
    ensures
        parse_usize_spec(decimal(n as nat)) == Some(n),
{
    lemma_decimal_reads_back(n as nat);
}

/// A position attribute written as `"<y> <x>"` with both numbers in decimal
/// reads back as row `y`, cell `x`.
pub proof fn lemma_position_round_trip(y: usize, x: usize)
    ensures
        position_spec(decimal(y as nat) + seq![' '] + decimal(x as nat)) == (Position::At { y, x }),
{
    let a = decimal(y as nat);
    let b = decimal(x as nat);
    let s = a + seq![' '] + b;
    lemma_decimal_reads_back(y as nat);
    lemma_decimal_reads_back(x as nat);
    lemma_parse_decimal(y);
    lemma_parse_decimal(x);
    assert(s[a.len() as int] == ' ');
    assert(s.contains(' '));
    s.index_of_first_ensures(' ');
    let k = s.index_of_first(' ').unwrap();
    if k < a.len() {
        assert(s[k] == a[k]);
        assert(a.contains(' '));
    }
    assert(k == a.len());
    assert(s.take(k) =~= a);
    assert(s.skip(k + 1) =~= b);
}

} // verus!
