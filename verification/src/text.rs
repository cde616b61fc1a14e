//! Text consoles: composing a screen of characters and finding what changed.
//!
//! Per screen there are two grids: `front` is what the display shows, `back` is what
//! is composed. Only the cells that differ are written, as runs within a row, so the
//! display is never blanked.

use crate::video::DsScreen;
use vstd::prelude::*;

verus! {

/// Columns of a console.
pub const COLS: usize = 32;

/// Rows of a console.
pub const ROWS: usize = 24;

/// Cells of a console.
pub const CELLS: usize = 768;

/// A blank cell.
pub const BLANK: u8 = 32;

/// A position on the grid, from the top left.
#[derive(Clone, Copy, PartialEq, Eq, Debug, Structural)]
pub struct TilePos {
    pub x: i16,
    pub y: i16,
}

impl TilePos {
    pub fn new(x: i16, y: i16) -> (r: Self)
        ensures
            r == (TilePos { x, y }),
    {
        TilePos { x, y }
    }
}

/// A single character.
#[derive(Clone, Copy, PartialEq, Eq, Debug, Structural)]
pub struct Glyph(pub u8);

/// A run of text.
#[derive(Debug)]
pub struct DsText(pub String);

impl DsText {
    pub fn new(text: String) -> (r: Self)
        ensures
            r.0@ == text@,
    {
        DsText(text)
    }
}

/// The shown and the composed cells of one screen, row by row.
pub struct Grid {
    pub front: [u8; 768],
    pub back: [u8; 768],
}

/// A whole screen of blanks.
pub open spec fn blank_screen() -> Seq<u8> {
    Seq::new(768, |i: int| BLANK)
}

/// Does the position stand on the grid?
pub open spec fn on_grid(x: int, y: int) -> bool {
    0 <= x < 32 && 0 <= y < 24
}

/// The cells with one written; positions off the grid are ignored.
pub open spec fn stamped(cells: Seq<u8>, x: int, y: int, byte: u8) -> Seq<u8> {
    if on_grid(x, y) {
        cells.update(y * 32 + x, byte)
    } else {
        cells
    }
}

/// The cells with a run of bytes written from `(x, y)` on, clipped to the row.
pub open spec fn stamped_run(cells: Seq<u8>, x: int, y: int, bytes: Seq<u8>) -> Seq<u8>
    decreases bytes.len(),
{
    if bytes.len() == 0 {
        cells
    } else {
        stamped(
            stamped_run(cells, x, y, bytes.drop_last()),
            x + bytes.len() - 1,
            y,
            bytes.last(),
        )
    }
}

/// Cells of a row that changed.
pub struct Run {
    pub row: usize,
    pub col: usize,
    pub bytes: Vec<u8>,
}

/// A run by its row, column and bytes.
pub type RunView = (int, int, Seq<u8>);

/// Runs by their values.
pub open spec fn run_views(v: Seq<Run>) -> Seq<RunView> {
    Seq::new(v.len(), |i: int| (v[i].row as int, v[i].col as int, v[i].bytes@))
}

/// Where the changed cells from `i` on end, at the end of the row at the latest.
pub open spec fn run_end(front: Seq<u8>, back: Seq<u8>, row: int, i: int) -> int
    decreases 768 - i,
{
    if i >= 768 || i / 32 != row || front[i] == back[i] {
        i
    } else {
        run_end(front, back, row, i + 1)
    }
}

proof fn lemma_run_end(front: Seq<u8>, back: Seq<u8>, row: int, i: int)
    requires
        0 <= i <= 768,
    ensures
        i <= run_end(front, back, row, i) <= 768,
        forall|k: int| i <= k < run_end(front, back, row, i) ==> front[k] != back[k] && k / 32 == row,
        ({
            let e = run_end(front, back, row, i);
            e >= 768 || e / 32 != row || front[e] == back[e]
        }),
    decreases 768 - i,
{
    if i < 768 && i / 32 == row && front[i] != back[i] {
        lemma_run_end(front, back, row, i + 1);
    }
}

/// The maximal runs of changed cells from cell `i` on, each within a row.
pub open spec fn changed_runs(front: Seq<u8>, back: Seq<u8>, i: int) -> Seq<RunView>
    decreases 768 - i, 1int,
    when 0 <= i <= 768
    via changed_runs_decreases
{
    if i >= 768 {
        Seq::empty()
    } else if front[i] == back[i] {
        changed_runs(front, back, i + 1)
    } else {
        let e = run_end(front, back, i / 32, i);
        seq![(i / 32, i % 32, back.subrange(i, e))] + changed_runs(front, back, e)
    }
}

#[via_fn]
proof fn changed_runs_decreases(front: Seq<u8>, back: Seq<u8>, i: int) {
    if i < 768 && front[i] != back[i] {
        lemma_run_end(front, back, i / 32, i + 1);
        lemma_run_end(front, back, i / 32, i);
    }
}

impl Grid {
    /// Two blank screens.
    pub fn new() -> (r: Self)
        ensures
            r.front@ == blank_screen(),
            r.back@ == blank_screen(),
    {
        let g = Grid { front: [32;768], back: [32;768] };
        assert(g.front@ =~= blank_screen());
        assert(g.back@ =~= blank_screen());
        g
    }

    /// Start composing from a blank screen.
    pub fn clear_back(&mut self)
        ensures
            final(self).back@ == blank_screen(),
            final(self).front == old(self).front,
    {
        self.back = [32;768];
        assert(self.back@ =~= blank_screen());
    }

    /// Write one cell; positions off the grid are ignored.
    pub fn put(&mut self, x: i16, y: i16, byte: u8)
        ensures
            final(self).back@ == stamped(old(self).back@, x as int, y as int, byte),
            final(self).front == old(self).front,
    {
        if 0 <= x && x < 32 && 0 <= y && y < 24 {
            let i: usize = y as usize * 32 + x as usize;
            self.back[i] = byte;
            assert(self.back@ =~= stamped(old(self).back@, x as int, y as int, byte));
        }
    }

    /// Write a run of bytes from `(x, y)` on, clipped to the row.
    pub fn put_str(&mut self, x: i16, y: i16, bytes: &[u8])
        ensures
            final(self).back@ == stamped_run(old(self).back@, x as int, y as int, bytes@),
            final(self).front == old(self).front,
    {
        let ghost start = self.back@;
        let mut i: usize = 0;
        assert(bytes@.take(0) =~= Seq::empty());
        while i < bytes.len()
            invariant
                i <= bytes.len(),
                self.front == old(self).front,
                self.back@ == stamped_run(start, x as int, y as int, bytes@.take(i as int)),
            decreases bytes.len() - i,
        {
            proof {
                let part = bytes@.take(i + 1);
                assert(part.drop_last() =~= bytes@.take(i as int));
                assert(part.last() == bytes@[i as int]);
            }
            let col: i128 = x as i128 + i as i128;
            if 0 <= col && col < 32 {
                self.put(col as i16, y, bytes[i]);
            }
            i = i + 1;
        }
        assert(bytes@.take(bytes.len() as int) =~= bytes@);
    }

    /// The runs of cells that changed; the front cells become the back cells.
    pub fn diff_runs(&mut self) -> (r: Vec<Run>)
        ensures
            run_views(r@) == changed_runs(old(self).front@, old(self).back@, 0),
            final(self).front@ == old(self).back@,
            final(self).back == old(self).back,
    {
        let ghost front = self.front@;
        let ghost back = self.back@;
        let mut out: Vec<Run> = Vec::new();
        let mut i: usize = 0;
        assert(run_views(out@) + changed_runs(front, back, 0) =~= changed_runs(front, back, 0));
        while i < 768
            invariant
                i <= 768,
                front.len() == 768,
                back.len() == 768,
                self.back@ == back,
                self.back == old(self).back,
                forall|k: int| 0 <= k < i ==> self.front@[k] == back[k],
                forall|k: int| i <= k < 768 ==> self.front@[k] == front[k],
                run_views(out@) + changed_runs(front, back, i as int) == changed_runs(
                    front,
                    back,
                    0,
                ),
            decreases 768 - i,
        {
            if self.back[i] == self.front[i] {
                i = i + 1;
                continue;
            }
            let row: usize = i / 32;
            let col: usize = i % 32;
            let ghost start = i as int;
            let ghost end = run_end(front, back, row as int, i as int);
            let ghost before = out@;
            let mut bytes: Vec<u8> = Vec::new();
            proof {
                lemma_run_end(front, back, row as int, i as int);
                assert(back.subrange(start, start) =~= Seq::<u8>::empty());
            }
            while i < 768 && i / 32 == row && self.back[i] != self.front[i]
                invariant
                    start <= i <= end <= 768,
                    front.len() == 768,
                    back.len() == 768,
                    self.back@ == back,
                    self.back == old(self).back,
                    row == start / 32,
                    end == run_end(front, back, row as int, start),
                    end == run_end(front, back, row as int, i as int),
                    forall|k: int| 0 <= k < i ==> self.front@[k] == back[k],
                    forall|k: int| i <= k < 768 ==> self.front@[k] == front[k],
                    bytes@ == back.subrange(start, i as int),
                decreases 768 - i,
            {
                proof {
                    lemma_run_end(front, back, row as int, i as int);
                    lemma_run_end(front, back, row as int, i + 1);
                }
                bytes.push(self.back[i]);
                self.front[i] = self.back[i];
                assert(back.subrange(start, i + 1) =~= back.subrange(start, i as int).push(
                    back[i as int],
                ));
                i = i + 1;
            }
            assert(i == end);
            let ghost view = (row as int, col as int, bytes@);
            out.push(Run { row, col, bytes });
            proof {
                assert(run_views(out@) =~= run_views(before).push(view));
                assert(changed_runs(front, back, start) == seq![view] + changed_runs(
                    front,
                    back,
                    end,
                ));
                assert(run_views(out@) + changed_runs(front, back, end) =~= run_views(before)
                    + changed_runs(front, back, start));
            }
        }
        assert(self.front@ =~= back);
        assert(run_views(out@) + changed_runs(front, back, 768) =~= run_views(out@));
        out
    }
}

/// The cells after a run is written to the display.
pub open spec fn written(cells: Seq<u8>, r: RunView) -> Seq<u8> {
    Seq::new(
        cells.len(),
        |i: int|
            if r.0 * 32 + r.1 <= i < r.0 * 32 + r.1 + r.2.len() {
                r.2[i - (r.0 * 32 + r.1)]
            } else {
                cells[i]
            },
    )
}

/// The cells after all runs are written, in order.
pub open spec fn written_all(cells: Seq<u8>, runs: Seq<RunView>) -> Seq<u8>
    decreases runs.len(),
{
    if runs.len() == 0 {
        cells
    } else {
        written_all(written(cells, runs[0]), runs.skip(1))
    }
}

/// Writing the changed runs makes the display show what was composed.
pub proof fn law_runs_bring_the_display_up_to_date(front: Seq<u8>, back: Seq<u8>)
    requires
        front.len() == 768,
        back.len() == 768,
    ensures
        written_all(front, changed_runs(front, back, 0)) == back,
{
    lemma_runs_written(front, back, front, 0);
}

proof fn lemma_runs_written(front: Seq<u8>, back: Seq<u8>, shown: Seq<u8>, i: int)
    requires
        front.len() == 768,
        back.len() == 768,
        shown.len() == 768,
        0 <= i <= 768,
        forall|k: int| 0 <= k < i ==> shown[k] == back[k],
        forall|k: int| i <= k < 768 ==> shown[k] == front[k],
    ensures
        written_all(shown, changed_runs(front, back, i)) == back,
    decreases 768 - i,
{
    if i >= 768 {
        assert(shown =~= back);
    } else if front[i] == back[i] {
        lemma_runs_written(front, back, shown, i + 1);
    } else {
        let e = run_end(front, back, i / 32, i);
        lemma_run_end(front, back, i / 32, i);
        lemma_run_end(front, back, i / 32, i + 1);
        let r: RunView = (i / 32, i % 32, back.subrange(i, e));
        let rest = changed_runs(front, back, e);
        let runs = changed_runs(front, back, i);
        assert(runs[0] == r);
        assert(runs.skip(1) =~= rest);
        let next = written(shown, r);
        assert(r.0 * 32 + r.1 == i);
        lemma_runs_written(front, back, next, e);
    }
}

/// When nothing was composed anew there is nothing to write.
pub proof fn law_second_diff_is_empty(cells: Seq<u8>, i: int)
    requires
        0 <= i <= 768,
    ensures
        changed_runs(cells, cells, i).len() == 0,
    decreases 768 - i,
{
    if i < 768 {
        law_second_diff_is_empty(cells, i + 1);
    }
}

/// Every run is within its row, holds only changed cells, and is not empty.
pub proof fn law_runs_hold_changes_of_one_row(front: Seq<u8>, back: Seq<u8>, i: int, k: int)
    requires
        front.len() == 768,
        back.len() == 768,
        0 <= i <= 768,
        0 <= k < changed_runs(front, back, i).len(),
    ensures
        ({
            let r = changed_runs(front, back, i)[k];
            let at = r.0 * 32 + r.1;
            &&& r.2.len() > 0
            &&& 0 <= r.1 && r.1 + r.2.len() <= 32
            &&& 0 <= r.0 < 24
            &&& forall|j: int|
                0 <= j < r.2.len() ==> #[trigger] r.2[j] == back[at + j] && back[at + j] != front[at
                    + j]
        }),
    decreases 768 - i,
{
    if i < 768 && front[i] == back[i] {
        law_runs_hold_changes_of_one_row(front, back, i + 1, k);
    } else if i < 768 {
        let e = run_end(front, back, i / 32, i);
        lemma_run_end(front, back, i / 32, i);
        lemma_run_end(front, back, i / 32, i + 1);
        if k > 0 {
            assert(changed_runs(front, back, i)[k] == changed_runs(front, back, e)[k - 1]);
            law_runs_hold_changes_of_one_row(front, back, e, k - 1);
        } else {
            let r = changed_runs(front, back, i)[0];
            assert(r == (i / 32, i % 32, back.subrange(i, e)));
            assert(front[e - 1] != back[e - 1]);
            assert((e - 1) / 32 == i / 32);
        }
    }
}

/// The grids of both screens.
pub struct Buffers {
    pub top: Grid,
    pub bottom: Grid,
}

/// Text to draw.
pub struct TextItem {
    pub screen: DsScreen,
    pub pos: TilePos,
    pub text: DsText,
}

/// A character to draw.
#[derive(Clone, Copy)]
pub struct GlyphItem {
    pub screen: DsScreen,
    pub pos: TilePos,
    pub glyph: Glyph,
}

/// The bytes of a text.
pub open spec fn text_bytes(t: TextItem) -> Seq<u8> {
    vstd::utf8::encode_utf8(t.text.0@)
}

/// A screen with its texts drawn.
pub open spec fn with_texts(cells: Seq<u8>, texts: Seq<TextItem>, screen: DsScreen) -> Seq<u8>
    decreases texts.len(),
{
    if texts.len() == 0 {
        cells
    } else {
        let rest = with_texts(cells, texts.drop_last(), screen);
        let t = texts.last();
        if t.screen == screen {
            stamped_run(rest, t.pos.x as int, t.pos.y as int, text_bytes(t))
        } else {
            rest
        }
    }
}

/// A screen with its characters drawn.
pub open spec fn with_glyphs(cells: Seq<u8>, glyphs: Seq<GlyphItem>, screen: DsScreen) -> Seq<u8>
    decreases glyphs.len(),
{
    if glyphs.len() == 0 {
        cells
    } else {
        let rest = with_glyphs(cells, glyphs.drop_last(), screen);
        let g = glyphs.last();
        if g.screen == screen {
            stamped(rest, g.pos.x as int, g.pos.y as int, g.glyph.0)
        } else {
            rest
        }
    }
}

/// A composed screen: texts first, characters on top.
pub open spec fn composed(
    texts: Seq<TextItem>,
    glyphs: Seq<GlyphItem>,
    screen: DsScreen,
) -> Seq<u8> {
    with_glyphs(with_texts(blank_screen(), texts, screen), glyphs, screen)
}

impl Buffers {
    /// Blank screens.
    pub fn new() -> (r: Self)
        ensures
            r.top.front@ == blank_screen(),
            r.top.back@ == blank_screen(),
            r.bottom.front@ == blank_screen(),
            r.bottom.back@ == blank_screen(),
    {
        Buffers { top: Grid::new(), bottom: Grid::new() }
    }

    /// Compose both screens and give the runs that changed on the top and the bottom.
    pub fn render(&mut self, glyphs: &Vec<GlyphItem>, texts: &Vec<TextItem>) -> (r: (
        Vec<Run>,
        Vec<Run>,
    ))
        ensures
            run_views(r.0@) == changed_runs(
                old(self).top.front@,
                composed(texts@, glyphs@, DsScreen::Top),
                0,
            ),
            run_views(r.1@) == changed_runs(
                old(self).bottom.front@,
                composed(texts@, glyphs@, DsScreen::Bottom),
                0,
            ),
            final(self).top.front@ == composed(texts@, glyphs@, DsScreen::Top),
            final(self).bottom.front@ == composed(texts@, glyphs@, DsScreen::Bottom),
            final(self).top.back@ == final(self).top.front@,
            final(self).bottom.back@ == final(self).bottom.front@,
    {
        self.top.clear_back();
        self.bottom.clear_back();
        let mut i: usize = 0;
        assert(texts@.take(0) =~= Seq::empty());
        while i < texts.len()
            invariant
                i <= texts.len(),
                self.top.front == old(self).top.front,
                self.bottom.front == old(self).bottom.front,
                self.top.back@ == with_texts(
                    blank_screen(),
                    texts@.take(i as int),
                    DsScreen::Top,
                ),
                self.bottom.back@ == with_texts(
                    blank_screen(),
                    texts@.take(i as int),
                    DsScreen::Bottom,
                ),
            decreases texts.len() - i,
        {
            proof {
                let part = texts@.take(i + 1);
                assert(part.drop_last() =~= texts@.take(i as int));
                assert(part.last() == texts@[i as int]);
            }
            let t: &TextItem = &texts[i];
            match t.screen {
                DsScreen::Top => self.top.put_str(t.pos.x, t.pos.y, t.text.0.as_str().as_bytes()),
                DsScreen::Bottom => self.bottom.put_str(
                    t.pos.x,
                    t.pos.y,
                    t.text.0.as_str().as_bytes(),
                ),
            }
            i = i + 1;
        }
        assert(texts@.take(texts.len() as int) =~= texts@);
        let ghost top = self.top.back@;
        let ghost bottom = self.bottom.back@;
        let mut j: usize = 0;
        assert(glyphs@.take(0) =~= Seq::empty());
        while j < glyphs.len()
            invariant
                j <= glyphs.len(),
                self.top.front == old(self).top.front,
                self.bottom.front == old(self).bottom.front,
                self.top.back@ == with_glyphs(top, glyphs@.take(j as int), DsScreen::Top),
                self.bottom.back@ == with_glyphs(bottom, glyphs@.take(j as int), DsScreen::Bottom),
            decreases glyphs.len() - j,
        {
            proof {
                let part = glyphs@.take(j + 1);
                assert(part.drop_last() =~= glyphs@.take(j as int));
                assert(part.last() == glyphs@[j as int]);
            }
            let g: GlyphItem = glyphs[j];
            match g.screen {
                DsScreen::Top => self.top.put(g.pos.x, g.pos.y, g.glyph.0),
                DsScreen::Bottom => self.bottom.put(g.pos.x, g.pos.y, g.glyph.0),
            }
            j = j + 1;
        }
        assert(glyphs@.take(glyphs.len() as int) =~= glyphs@);
        let a: Vec<Run> = self.top.diff_runs();
        let b: Vec<Run> = self.bottom.diff_runs();
        (a, b)
    }
}

/// A character is on top of whatever text stands in its cell.
pub proof fn law_last_glyph_is_on_top(
    texts: Seq<TextItem>,
    glyphs: Seq<GlyphItem>,
    g: GlyphItem,
)
    requires
        on_grid(g.pos.x as int, g.pos.y as int),
    ensures
        composed(texts, glyphs.push(g), g.screen)[g.pos.y * 32 + g.pos.x] == g.glyph.0,
{
    let all = glyphs.push(g);
    assert(all.drop_last() =~= glyphs);
    lemma_texts_len(blank_screen(), texts, g.screen);
    lemma_glyphs_len(with_texts(blank_screen(), texts, g.screen), glyphs, g.screen);
}

proof fn lemma_run_len(cells: Seq<u8>, x: int, y: int, bytes: Seq<u8>)
    requires
        cells.len() == 768,
    ensures
        stamped_run(cells, x, y, bytes).len() == cells.len(),
    decreases bytes.len(),
{
    if bytes.len() > 0 {
        lemma_run_len(cells, x, y, bytes.drop_last());
    }
}

proof fn lemma_texts_len(cells: Seq<u8>, texts: Seq<TextItem>, screen: DsScreen)
    requires
        cells.len() == 768,
    ensures
        with_texts(cells, texts, screen).len() == cells.len(),
    decreases texts.len(),
{
    if texts.len() > 0 {
        lemma_texts_len(cells, texts.drop_last(), screen);
        let t = texts.last();
        lemma_run_len(
            with_texts(cells, texts.drop_last(), screen),
            t.pos.x as int,
            t.pos.y as int,
            text_bytes(t),
        );
    }
}

proof fn lemma_glyphs_len(cells: Seq<u8>, glyphs: Seq<GlyphItem>, screen: DsScreen)
    requires
        cells.len() == 768,
    ensures
        with_glyphs(cells, glyphs, screen).len() == cells.len(),
    decreases glyphs.len(),
{
    if glyphs.len() > 0 {
        lemma_glyphs_len(cells, glyphs.drop_last(), screen);
    }
}

/// A run of text never reaches another row.
pub proof fn law_text_stays_in_its_row(cells: Seq<u8>, x: int, y: int, bytes: Seq<u8>, i: int)
    requires
        cells.len() == 768,
        0 <= i < 768,
        i / 32 != y,
    ensures
        stamped_run(cells, x, y, bytes)[i] == cells[i],
    decreases bytes.len(),
{
    if bytes.len() > 0 {
        law_text_stays_in_its_row(cells, x, y, bytes.drop_last(), i);
        lemma_run_len(cells, x, y, bytes.drop_last());
    }
}

} // verus!
