use vstd::prelude::*;

verus! {

/// How many lines a path between the columns `from` and `to` leans: none
/// where it stays in its column, and one for each character between the
/// two columns otherwise.
pub open spec fn span(from: int, to: int) -> int {
    if from == to {
        0
    } else if from < to {
        2 * (to - from) - 1
    } else {
        2 * (from - to) - 1
    }
}

/// The position that a path from column `from` to column `to` takes on line
/// `i`, where it waits `d` lines before it leans. A column `c` stands at the
/// position `2 * c`. The path goes straight down from its column while it
/// waits, then one position sideways on each line, and straight down into
/// the column it leads to.
pub open spec fn cell_x(from: int, to: int, d: int, i: int) -> int {
    if i < d {
        2 * from
    } else if i < d + span(from, to) {
        if from < to {
            2 * from + 1 + (i - d)
        } else {
            2 * from - 1 - (i - d)
        }
    } else {
        2 * to
    }
}

/// The character that the path shows on line `i`: a bar where it goes
/// straight down, and a stroke that leans the way it goes otherwise.
pub open spec fn cell_glyph(from: int, to: int, d: int, i: int) -> char {
    if d <= i < d + span(from, to) {
        if from < to {
            '\\'
        } else {
            '/'
        }
    } else {
        '|'
    }
}

/// The lines between two rows, and for each column whether a path has
/// arrived in it.
pub struct Grid {
    pub lines: Seq<Seq<char>>,
    pub tails: Seq<bool>,
}

/// Whether a character may be written where `old` stands: the place is
/// blank, or holds the same character.
pub open spec fn free(old: char, new: char) -> bool {
    old == ' ' || old == new
}

impl Grid {
    /// The number of characters in a line.
    pub open spec fn width(self) -> int {
        2 * self.tails.len() - 1
    }

    /// There is a column, and every line is as wide as the columns ask.
    pub open spec fn wf(self) -> bool {
        &&& self.tails.len() >= 1
        &&& forall|i: int|
            0 <= i < self.lines.len() ==> (#[trigger] self.lines[i]).len() == self.width()
    }

    /// A grid of `cols` columns without lines.
    pub open spec fn blank(cols: nat) -> Grid {
        Grid { lines: Seq::empty(), tails: Seq::new(cols, |c: int| false) }
    }

    /// What a new line holds at `x`: a bar in each column in which a path
    /// has arrived.
    pub open spec fn tail_glyph(self, x: int) -> char {
        if x % 2 == 0 && self.tails[x / 2] {
            '|'
        } else {
            ' '
        }
    }

    /// A new line.
    pub open spec fn tail_line(self) -> Seq<char> {
        Seq::new(self.width() as nat, |x: int| self.tail_glyph(x))
    }

    /// The line `i`, which is a new line where the grid has fewer lines.
    pub open spec fn line(self, i: int) -> Seq<char> {
        if i < self.lines.len() {
            self.lines[i]
        } else {
            self.tail_line()
        }
    }

    /// The number of lines that the grid has once the path is drawn.
    pub open spec fn rise(self, from: int, to: int, d: int) -> int {
        let need = if d + span(from, to) < 1 {
            1
        } else {
            d + span(from, to)
        };
        if need < self.lines.len() {
            self.lines.len() as int
        } else {
            need
        }
    }

    /// Whether on line `i` the path finds its place free.
    pub open spec fn free_at(self, from: int, to: int, d: int, i: int) -> bool {
        free(self.line(i)[cell_x(from, to, d, i)], cell_glyph(from, to, d, i))
    }

    /// Whether the path, waiting `d` lines, finds its place free on every
    /// line.
    pub open spec fn fits(self, from: int, to: int, d: int) -> bool {
        forall|i: int| 0 <= i < self.rise(from, to, d) ==> #[trigger] self.free_at(from, to, d, i)
    }

    /// The least wait from `d` on, and no more than the grid has lines, with
    /// which the path fits; 0 where there is none.
    pub open spec fn first_fit(self, from: int, to: int, d: int) -> int
        decreases self.lines.len() + 1 - d,
    {
        if d > self.lines.len() {
            0
        } else if self.fits(from, to, d) {
            d
        } else {
            self.first_fit(from, to, d + 1)
        }
    }

    /// The wait of the path: the least with which it crosses no other path,
    /// so that it gets lines of its own below those that are taken.
    pub open spec fn delay(self, from: int, to: int) -> int {
        self.first_fit(from, to, 0)
    }

    /// The line `i` with the path drawn on it. Where its place is taken, the
    /// line stays as it is.
    pub open spec fn drawn_line(self, from: int, to: int, d: int, i: int) -> Seq<char> {
        let x = cell_x(from, to, d, i);
        if self.line(i)[x] == ' ' {
            self.line(i).update(x, cell_glyph(from, to, d, i))
        } else {
            self.line(i)
        }
    }

    /// The grid with a path from column `from` to column `to` drawn on it.
    pub open spec fn place(self, from: int, to: int) -> Grid {
        let d = self.delay(from, to);
        Grid {
            lines: Seq::new(
                self.rise(from, to, d) as nat,
                |i: int| self.drawn_line(from, to, d, i),
            ),
            tails: self.tails.update(to, true),
        }
    }
}

/// The grid of `cols` columns with the paths drawn on it, first to last.
pub open spec fn draw(cols: nat, paths: Seq<(int, int)>) -> Grid
    decreases paths.len(),
{
    if paths.len() == 0 {
        Grid::blank(cols)
    } else {
        draw(cols, paths.drop_last()).place(paths.last().0, paths.last().1)
    }
}

/// A position of a path lies on the line.
pub proof fn lemma_cell_inside(from: int, to: int, d: int, i: int, cols: int)
    requires
        0 <= from < cols,
        0 <= to < cols,
        0 <= d,
        0 <= i,
    ensures
        0 <= cell_x(from, to, d, i) < 2 * cols - 1,
{
}

/// The wait of a path is no more than the grid has lines.
pub proof fn lemma_first_fit(grid: Grid, from: int, to: int, d: int)
    requires
        0 <= d,
    ensures
        0 <= grid.first_fit(from, to, d) <= grid.lines.len(),
        grid.first_fit(from, to, d) != 0 ==> grid.fits(from, to, grid.first_fit(from, to, d)),
    decreases grid.lines.len() + 1 - d,
{
    if d <= grid.lines.len() && !grid.fits(from, to, d) {
        lemma_first_fit(grid, from, to, d + 1);
    }
}

/// Drawing a path keeps the grid well formed, and adds no more lines than
/// the path leans, or one.
pub proof fn lemma_place(grid: Grid, from: int, to: int)
    requires
        grid.wf(),
        0 <= from < grid.tails.len(),
        0 <= to < grid.tails.len(),
    ensures
        grid.place(from, to).wf(),
        grid.place(from, to).tails.len() == grid.tails.len(),
        grid.lines.len() <= grid.place(from, to).lines.len() <= grid.lines.len() + 2
            * grid.tails.len(),
        grid.place(from, to).lines.len() >= 1,
{
    lemma_first_fit(grid, from, to, 0);
    let d = grid.delay(from, to);
    let next = grid.place(from, to);
    assert forall|i: int| 0 <= i < next.lines.len() implies (#[trigger] next.lines[i]).len()
        == next.width() by {
        lemma_cell_inside(from, to, d, i, grid.tails.len() as int);
    }
}

/// Drawing a path leaves every character that was drawn before, and writes
/// nothing but the path: each place holds what it held, or was blank and
/// holds what the path shows there.
pub proof fn lemma_place_keeps(grid: Grid, from: int, to: int, i: int, x: int)
    requires
        grid.wf(),
        0 <= from < grid.tails.len(),
        0 <= to < grid.tails.len(),
        0 <= i < grid.place(from, to).lines.len(),
        0 <= x < grid.width(),
    ensures
        grid.line(i)[x] != ' ' ==> grid.place(from, to).lines[i][x] == grid.line(i)[x],
        grid.place(from, to).lines[i][x] != grid.line(i)[x] ==> x == cell_x(
            from,
            to,
            grid.delay(from, to),
            i,
        ) && grid.place(from, to).lines[i][x] == cell_glyph(from, to, grid.delay(from, to), i),
{
    lemma_first_fit(grid, from, to, 0);
    lemma_cell_inside(from, to, grid.delay(from, to), i, grid.tails.len() as int);
}

/// A path that finds its place free on every line is shown whole: on each
/// line the grid holds its character at its position.
pub proof fn lemma_place_shows(grid: Grid, from: int, to: int, i: int)
    requires
        grid.wf(),
        0 <= from < grid.tails.len(),
        0 <= to < grid.tails.len(),
        grid.fits(from, to, grid.delay(from, to)),
        0 <= i < grid.place(from, to).lines.len(),
    ensures
        grid.place(from, to).lines[i][cell_x(from, to, grid.delay(from, to), i)] == cell_glyph(
            from,
            to,
            grid.delay(from, to),
            i,
        ),
{
    let d = grid.delay(from, to);
    lemma_first_fit(grid, from, to, 0);
    lemma_cell_inside(from, to, d, i, grid.tails.len() as int);
    assert(grid.free_at(from, to, d, i));
}

/// A path waits no longer than it must: with every shorter wait it would
/// cross a path that was drawn before.
pub proof fn lemma_delay_least(grid: Grid, from: int, to: int, d: int)
    requires
        0 <= d < grid.delay(from, to),
    ensures
        !grid.fits(from, to, d),
{
    lemma_first_fit_least(grid, from, to, 0, d);
}

/// No wait from `start` up to the first that fits does fit.
proof fn lemma_first_fit_least(grid: Grid, from: int, to: int, start: int, d: int)
    requires
        0 <= start <= d < grid.first_fit(from, to, start),
    ensures
        !grid.fits(from, to, d),
    decreases grid.lines.len() + 1 - start,
{
    if start <= grid.lines.len() && !grid.fits(from, to, start) {
        if d > start {
            lemma_first_fit_least(grid, from, to, start + 1, d);
        }
    }
}

/// A line without the blanks at its end.
pub open spec fn trim(line: Seq<char>) -> Seq<char>
    decreases line.len(),
{
    if line.len() > 0 && line.last() == ' ' {
        trim(line.drop_last())
    } else {
        line
    }
}

/// The parts put together, with `sep` between each two.
pub open spec fn join(parts: Seq<Seq<char>>, sep: char) -> Seq<char>
    decreases parts.len(),
{
    if parts.len() == 0 {
        Seq::empty()
    } else if parts.len() == 1 {
        parts[0]
    } else {
        join(parts.drop_last(), sep).push(sep) + parts.last()
    }
}

/// The lines of a grid as one text: each without the blanks at its end, and
/// a line break between each two.
pub open spec fn block_text(grid: Grid) -> Seq<char> {
    join(grid.lines.map_values(|l: Seq<char>| trim(l)), '\n')
}

/// A copy of `line` without the blanks at its end.
pub(crate) fn trimmed(line: &Vec<char>) -> (short: Vec<char>)
    ensures
        short@ == trim(line@),
{
    let mut n = line.len();
    assert(line@.take(n as int) =~= line@);
    while n > 0 && line[n - 1] == ' '
        invariant
            n <= line@.len(),
            trim(line@) == trim(line@.take(n as int)),
        decreases n,
    {
        assert(line@.take(n as int).drop_last() =~= line@.take(n - 1));
        n -= 1;
    }
    let mut short: Vec<char> = Vec::new();
    let mut i: usize = 0;
    while i < n
        invariant
            i <= n <= line@.len(),
            short@ == line@.take(i as int),
        decreases n - i,
    {
        short.push(line[i]);
        assert(line@.take(i + 1) =~= line@.take(i as int).push(line@[i as int]));
        i += 1;
    }
    short
}

/// The parts put together, with `sep` between each two.
pub(crate) fn joined(parts: &Vec<Vec<char>>, sep: char) -> (text: Vec<char>)
    ensures
        text@ == join(parts@.map_values(|p: Vec<char>| p@), sep),
{
    let ghost all = parts@.map_values(|p: Vec<char>| p@);
    let mut text: Vec<char> = Vec::new();
    let mut i: usize = 0;
    while i < parts.len()
        invariant
            i <= parts@.len(),
            all == parts@.map_values(|p: Vec<char>| p@),
            text@ == join(all.take(i as int), sep),
        decreases parts@.len() - i,
    {
        let ghost head = text@;
        if i > 0 {
            text.push(sep);
        }
        let part = &parts[i];
        let ghost start = text@;
        let mut j: usize = 0;
        while j < part.len()
            invariant
                j <= part@.len(),
                text@ == start + part@.take(j as int),
            decreases part@.len() - j,
        {
            text.push(part[j]);
            assert(part@.take(j + 1) =~= part@.take(j as int).push(part@[j as int]));
            assert(text@ =~= start + part@.take(j + 1));
            j += 1;
        }
        proof {
            assert(part@.take(j as int) =~= part@);
            assert(all.take(i + 1).drop_last() =~= all.take(i as int));
            assert(all.take(i + 1).last() == part@);
            if i == 0 {
                assert(text@ =~= part@);
            }
        }
        i += 1;
    }
    assert(all.take(i as int) =~= all);
    text
}

/// The lines between two rows while they are drawn.
pub struct Canvas {
    lines: Vec<Vec<char>>,
    tails: Vec<bool>,
}

impl View for Canvas {
    type V = Grid;

    closed spec fn view(&self) -> Grid {
        Grid { lines: self.lines@.map_values(|l: Vec<char>| l@), tails: self.tails@ }
    }
}

/// The position and the character of a path on line `i`.
fn cell(from: usize, to: usize, d: usize, i: usize) -> (at: (usize, char))
    requires
        2 * from + 2 <= usize::MAX,
        2 * to + 2 <= usize::MAX,
    ensures
        at.0 == cell_x(from as int, to as int, d as int, i as int),
        at.1 == cell_glyph(from as int, to as int, d as int, i as int),
{
    if i < d {
        (2 * from, '|')
    } else {
        let k = i - d;
        if from < to && k < 2 * (to - from) - 1 {
            (2 * from + 1 + k, '\\')
        } else if to < from && k < 2 * (from - to) - 1 {
            (2 * from - 1 - k, '/')
        } else {
            (2 * to, '|')
        }
    }
}

/// The number of lines that a path leans.
fn lean(from: usize, to: usize) -> (n: usize)
    requires
        2 * from + 2 <= usize::MAX,
        2 * to + 2 <= usize::MAX,
    ensures
        n == span(from as int, to as int),
{
    if from == to {
        0
    } else if from < to {
        2 * (to - from) - 1
    } else {
        2 * (from - to) - 1
    }
}

impl Canvas {
    /// The grid is well formed and its positions can be counted.
    pub open spec fn wf(&self) -> bool {
        self@.wf() && 2 * self@.tails.len() <= usize::MAX
    }

    /// A canvas of `cols` columns without lines.
    pub fn new(cols: usize) -> (canvas: Self)
        requires
            1 <= cols,
            2 * cols <= usize::MAX,
        ensures
            canvas.wf(),
            canvas@ == Grid::blank(cols as nat),
    {
        let mut tails: Vec<bool> = Vec::new();
        while tails.len() < cols
            invariant
                tails@.len() <= cols,
                forall|c: int| 0 <= c < tails@.len() ==> !tails@[c],
            decreases cols - tails@.len(),
        {
            tails.push(false);
        }
        let canvas = Canvas { lines: Vec::new(), tails };
        assert(canvas@.lines =~= Seq::<Seq<char>>::empty());
        assert(canvas@.tails =~= Seq::new(cols as nat, |c: int| false));
        canvas
    }

    /// The lines as one text: each without the blanks at its end, and a line
    /// break between each two.
    pub fn text(&self) -> (text: Vec<char>)
        ensures
            text@ == block_text(self@),
    {
        let ghost wanted = self@.lines.map_values(|l: Seq<char>| trim(l));
        let mut short: Vec<Vec<char>> = Vec::new();
        let mut i: usize = 0;
        while i < self.lines.len()
            invariant
                i <= self.lines@.len(),
                short@.len() == i,
                forall|j: int| 0 <= j < i ==> (#[trigger] short@[j])@ == trim(self.lines@[j]@),
            decreases self.lines@.len() - i,
        {
            short.push(trimmed(&self.lines[i]));
            i += 1;
        }
        assert(short@.map_values(|p: Vec<char>| p@) =~= wanted);
        joined(&short, '\n')
    }

    /// The number of lines.
    pub fn height(&self) -> (n: usize)
        ensures
            n == self@.lines.len(),
    {
        self.lines.len()
    }

    /// What stands at `x` on line `i`, which is a new line where the canvas
    /// has fewer lines.
    fn glyph(&self, i: usize, x: usize) -> (c: char)
        requires
            self.wf(),
            x < self@.width(),
        ensures
            c == self@.line(i as int)[x as int],
    {
        if i < self.lines.len() {
            assert(self@.lines[i as int] == self.lines@[i as int]@);
            assert(self@.lines[i as int].len() == self@.width());
            self.lines[i][x]
        } else if x % 2 == 0 && self.tails[x / 2] {
            '|'
        } else {
            ' '
        }
    }

    /// The number of lines that the canvas has once the path is drawn.
    fn rise(&self, from: usize, to: usize, d: usize) -> (n: usize)
        requires
            self.wf(),
            from < self@.tails.len(),
            to < self@.tails.len(),
            d + 2 * self@.tails.len() <= usize::MAX,
        ensures
            n == self@.rise(from as int, to as int, d as int),
    {
        let mut need = d + lean(from, to);
        if need < 1 {
            need = 1;
        }
        if need < self.lines.len() {
            self.lines.len()
        } else {
            need
        }
    }

    /// Whether the path, waiting `d` lines, finds its place free on every
    /// line.
    fn fits(&self, from: usize, to: usize, d: usize) -> (ok: bool)
        requires
            self.wf(),
            from < self@.tails.len(),
            to < self@.tails.len(),
            d + 2 * self@.tails.len() <= usize::MAX,
        ensures
            ok == self@.fits(from as int, to as int, d as int),
    {
        let rise = self.rise(from, to, d);
        let mut i: usize = 0;
        while i < rise
            invariant
                self.wf(),
                from < self@.tails.len(),
                to < self@.tails.len(),
                i <= rise,
                rise == self@.rise(from as int, to as int, d as int),
                forall|j: int|
                    0 <= j < i ==> #[trigger] self@.free_at(from as int, to as int, d as int, j),
            decreases rise - i,
        {
            let (x, c) = cell(from, to, d, i);
            proof {
                lemma_cell_inside(
                    from as int,
                    to as int,
                    d as int,
                    i as int,
                    self@.tails.len() as int,
                );
            }
            let old = self.glyph(i, x);
            if !(old == ' ' || old == c) {
                assert(!self@.free_at(from as int, to as int, d as int, i as int));
                return false;
            }
            i += 1;
        }
        true
    }

    /// The wait of the path.
    fn delay(&self, from: usize, to: usize) -> (d: usize)
        requires
            self.wf(),
            from < self@.tails.len(),
            to < self@.tails.len(),
            self@.lines.len() + 2 * self@.tails.len() <= usize::MAX,
        ensures
            d == self@.delay(from as int, to as int),
            d <= self@.lines.len(),
    {
        let mut d: usize = 0;
        while d <= self.lines.len()
            invariant
                self.wf(),
                from < self@.tails.len(),
                to < self@.tails.len(),
                self@.lines.len() + 2 * self@.tails.len() <= usize::MAX,
                d <= self@.lines.len() + 1,
                self@.delay(from as int, to as int) == self@.first_fit(
                    from as int,
                    to as int,
                    d as int,
                ),
            decreases self@.lines.len() + 1 - d,
        {
            if self.fits(from, to, d) {
                return d;
            }
            d += 1;
        }
        0
    }

    /// A new line: a bar in each column in which a path has arrived.
    fn tail_line(&self) -> (line: Vec<char>)
        requires
            self.wf(),
        ensures
            line@ == self@.tail_line(),
    {
        let width = 2 * self.tails.len() - 1;
        let mut line: Vec<char> = Vec::new();
        while line.len() < width
            invariant
                self.wf(),
                width == self@.width(),
                line@.len() <= width,
                forall|x: int| 0 <= x < line@.len() ==> line@[x] == self@.tail_glyph(x),
            decreases width - line@.len(),
        {
            let x = line.len();
            if x % 2 == 0 && self.tails[x / 2] {
                line.push('|');
            } else {
                line.push(' ');
            }
        }
        assert(line@ =~= self@.tail_line());
        line
    }

    /// Draws a path from column `from` to column `to`. The path waits as few
    /// lines as it must to cross no path drawn before; where it crosses one
    /// whatever it does, it waits none and leaves what is drawn as it is.
    pub fn draw_connector(&mut self, from: usize, to: usize)
        requires
            old(self).wf(),
            from < old(self)@.tails.len(),
            to < old(self)@.tails.len(),
            old(self)@.lines.len() + 2 * old(self)@.tails.len() <= usize::MAX,
        ensures
            final(self).wf(),
            final(self)@ == old(self)@.place(from as int, to as int),
    {
        let ghost grid = self@;
        let d = self.delay(from, to);
        let rise = self.rise(from, to, d);
        proof {
            lemma_place(grid, from as int, to as int);
        }
        while self.lines.len() < rise
            invariant
                self.wf(),
                self@.tails == grid.tails,
                grid.lines.len() <= self@.lines.len() <= rise,
                forall|i: int| 0 <= i < self@.lines.len() ==> self@.lines[i] == grid.line(i),
            decreases rise - self@.lines.len(),
        {
            let line = self.tail_line();
            let ghost before = self@;
            self.lines.push(line);
            proof {
                assert(before.tail_line() =~= grid.tail_line());
                assert(self@.lines =~= before.lines.push(line@));
            }
        }
        let mut i: usize = 0;
        while i < rise
            invariant
                self.wf(),
                self@.tails == grid.tails,
                self@.lines.len() == rise,
                from < grid.tails.len(),
                to < grid.tails.len(),
                i <= rise,
                forall|j: int|
                    0 <= j < i ==> self@.lines[j] == grid.drawn_line(
                        from as int,
                        to as int,
                        d as int,
                        j,
                    ),
                forall|j: int| i <= j < rise ==> self@.lines[j] == grid.line(j),
            decreases rise - i,
        {
            let (x, c) = cell(from, to, d, i);
            proof {
                lemma_cell_inside(
                    from as int,
                    to as int,
                    d as int,
                    i as int,
                    grid.tails.len() as int,
                );
                assert(self@.lines[i as int] == self.lines@[i as int]@);
                assert(self@.lines[i as int].len() == self@.width());
            }
            let ghost before = self@;
            if self.lines[i][x] == ' ' {
                self.lines[i][x] = c;
            }
            proof {
                assert(self@.lines[i as int] == self.lines@[i as int]@);
                assert forall|j: int| 0 <= j < rise && j != i implies self@.lines[j]
                    == before.lines[j] by {
                    assert(self@.lines[j] == self.lines@[j]@);
                }
                assert forall|j: int| 0 <= j < self@.lines.len() implies (
                #[trigger] self@.lines[j]).len() == self@.width() by {
                    if j != i {
                        assert(self@.lines[j] == before.lines[j]);
                    }
                }
                assert(self@.lines[i as int] =~= grid.drawn_line(
                    from as int,
                    to as int,
                    d as int,
                    i as int,
                ));
            }
            i += 1;
        }
        self.tails[to] = true;
        proof {
            assert(self@.tails =~= grid.tails.update(to as int, true));
            assert(self@.lines =~= grid.place(from as int, to as int).lines);
        }
    }
}

} // verus!
