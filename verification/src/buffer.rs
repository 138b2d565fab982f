//! The text buffer: a document of character-indexed lines, a primary cursor,
//! an optional secondary cursor, scroll offsets, and the dirty flag.
//!
//! Lines store Unicode scalar values directly, so a position's `x` is always
//! a character count and no edit can fall inside an encoded character. Every
//! mutation is specified against the ghost model [`BufView`] and keeps both
//! cursors at valid in-bounds positions.

use vstd::prelude::*;

use crate::direction::Direction;
use crate::text;

verus! {

/// A character-indexed position: `x` counts Unicode scalar values on line
/// `y`; `x` equal to the line's length means "after the last character".
#[derive(Clone, Copy, PartialEq, Eq, Structural, Debug)]
pub struct Position {
    pub x: usize,
    pub y: usize,
}

/// Ghost mirror of [`Position`] over unbounded integers.
#[verifier::ext_equal]
pub struct PosView {
    pub x: int,
    pub y: int,
}

impl View for Position {
    type V = PosView;

    open spec fn view(&self) -> PosView {
        PosView { x: self.x as int, y: self.y as int }
    }
}

impl PosView {
    /// The position lies on an existing line, at or before its end.
    pub open spec fn in_bounds(self, lines: Seq<Seq<char>>) -> bool {
        &&& 0 <= self.y < lines.len()
        &&& 0 <= self.x <= lines[self.y].len()
    }
}

/// Ghost model of a whole buffer.
#[verifier::ext_equal]
pub struct BufView {
    pub lines: Seq<Seq<char>>,
    pub primary: PosView,
    pub secondary: Option<PosView>,
    pub offset_x: int,
    pub offset_y: int,
    pub modified: bool,
    pub filename: Option<Seq<char>>,
}

impl BufView {
    /// Buffer invariant: at least one line, and both cursors in bounds.
    pub open spec fn wf(self) -> bool {
        &&& self.lines.len() >= 1
        &&& self.primary.in_bounds(self.lines)
        &&& match self.secondary {
            Some(s) => s.in_bounds(self.lines),
            None => true,
        }
    }

    /// The model of a freshly created buffer: one empty line, both scroll
    /// offsets zero, a clean single-cursor document with no file attached.
    pub open spec fn init() -> BufView {
        BufView {
            lines: seq![Seq::empty()],
            primary: PosView { x: 0, y: 0 },
            secondary: None,
            offset_x: 0,
            offset_y: 0,
            modified: false,
            filename: None,
        }
    }

    /// The model of a buffer hydrated from a full text: the text split into
    /// lines, cursor at the origin, clean.
    pub open spec fn loaded(full_text: Seq<char>, filename: Option<Seq<char>>) -> BufView {
        BufView {
            lines: text::split_text(full_text),
            primary: PosView { x: 0, y: 0 },
            secondary: None,
            offset_x: 0,
            offset_y: 0,
            modified: false,
            filename,
        }
    }

    /// Insertion of one character at the primary cursor: the character enters
    /// the current line at the cursor, the cursor advances past it, and a
    /// secondary cursor on the same line at or after the insertion point is
    /// shifted right by one so it stays anchored to the same following text.
    pub open spec fn after_insert_char(self, ch: char) -> BufView {
        let x = self.primary.x;
        let y = self.primary.y;
        BufView {
            lines: self.lines.update(y, self.lines[y].insert(x, ch)),
            primary: PosView { x: x + 1, y },
            secondary: match self.secondary {
                Some(s) => Some(
                    if s.y == y && s.x >= x {
                        PosView { x: s.x + 1, y: s.y }
                    } else {
                        s
                    },
                ),
                None => None,
            },
            modified: true,
            ..self
        }
    }

    /// Inserting a character keeps the document well formed.
    pub proof fn lemma_insert_char_wf(self, ch: char)
        requires
            self.wf(),
        ensures
            self.after_insert_char(ch).wf(),
    {
        let v = self.after_insert_char(ch);
        let y = self.primary.y;
        assert(v.lines[y] == self.lines[y].insert(self.primary.x, ch));
        assert(v.lines[y].len() == self.lines[y].len() + 1);
    }

    /// Splitting the current line at the primary cursor: the line is replaced
    /// by its left part, the right part becomes a new line just below, and
    /// the cursor moves to the start of that new line. A secondary cursor on
    /// a line below the split keeps its line by moving down with it; one on
    /// the split line itself stays there, clamped to the split point if it
    /// sat beyond it (the text past the split now lives on the next line).
    pub open spec fn after_insert_newline(self) -> BufView {
        let x = self.primary.x;
        let y = self.primary.y;
        let left = self.lines[y].take(x);
        let right = self.lines[y].skip(x);
        BufView {
            lines: self.lines.update(y, left).insert(y + 1, right),
            primary: PosView { x: 0, y: y + 1 },
            secondary: match self.secondary {
                Some(s) => Some(
                    if s.y > y {
                        PosView { x: s.x, y: s.y + 1 }
                    } else if s.y == y && s.x > x {
                        PosView { x, y: s.y }
                    } else {
                        s
                    },
                ),
                None => None,
            },
            modified: true,
            ..self
        }
    }

    /// Splitting a line keeps the document well formed: this is one half of
    /// the guarantee that no sequence of line splits and deletions can ever
    /// leave the document empty or a cursor out of bounds.
    pub proof fn lemma_insert_newline_wf(self)
        requires
            self.wf(),
        ensures
            self.after_insert_newline().wf(),
    {
        let v = self.after_insert_newline();
        let x = self.primary.x;
        let y = self.primary.y;
        let left = self.lines[y].take(x);
        let right = self.lines[y].skip(x);
        let mid = self.lines.update(y, left);
        assert(v.lines == mid.insert(y + 1, right));
        assert(v.lines.len() == self.lines.len() + 1);
        assert(v.lines[y + 1] == right);
        assert(v.lines[y] == left);
        match self.secondary {
            Some(s) => {
                if s.y > y {
                    assert(v.lines[s.y + 1] == mid[s.y]);
                    assert(mid[s.y] == self.lines[s.y]);
                } else if s.y < y {
                    assert(v.lines[s.y] == mid[s.y]);
                    assert(mid[s.y] == self.lines[s.y]);
                }
            },
            None => {},
        }
    }

    /// Deleting before the primary cursor (backspace). With the cursor inside
    /// a line, the character just before it is removed and the cursor (and a
    /// secondary cursor at or after it on the same line) steps back by one.
    /// At the start of a line other than the first, the line is merged onto
    /// the end of the previous line and the cursor lands on the seam; a
    /// secondary cursor on the merged line is re-anchored after the seam and
    /// one on a lower line moves up with the shrunken document. At the very
    /// start of the document nothing happens.
    pub open spec fn after_delete_char(self) -> BufView {
        let x = self.primary.x;
        let y = self.primary.y;
        if x > 0 {
            BufView {
                lines: self.lines.update(y, self.lines[y].remove(x - 1)),
                primary: PosView { x: x - 1, y },
                secondary: match self.secondary {
                    Some(s) => Some(
                        if s.y == y && s.x >= x {
                            PosView { x: s.x - 1, y: s.y }
                        } else {
                            s
                        },
                    ),
                    None => None,
                },
                modified: true,
                ..self
            }
        } else if y > 0 {
            let prev_len = self.lines[y - 1].len() as int;
            BufView {
                lines: self.lines.update(y - 1, self.lines[y - 1] + self.lines[y]).remove(y),
                primary: PosView { x: prev_len, y: y - 1 },
                secondary: match self.secondary {
                    Some(s) => Some(
                        if s.y > y {
                            PosView { x: s.x, y: s.y - 1 }
                        } else if s.y == y {
                            PosView { x: prev_len + s.x, y: y - 1 }
                        } else {
                            s
                        },
                    ),
                    None => None,
                },
                modified: true,
                ..self
            }
        } else {
            self
        }
    }

    /// Deleting keeps the document well formed: in particular the merge case
    /// never removes the last line, so the document never becomes empty.
    pub proof fn lemma_delete_char_wf(self)
        requires
            self.wf(),
        ensures
            self.after_delete_char().wf(),
    {
        let v = self.after_delete_char();
        let x = self.primary.x;
        let y = self.primary.y;
        if x > 0 {
            assert(v.lines[y] == self.lines[y].remove(x - 1));
            assert(v.lines[y].len() == self.lines[y].len() - 1);
        } else if y > 0 {
            let merged = self.lines[y - 1] + self.lines[y];
            let mid = self.lines.update(y - 1, merged);
            assert(v.lines == mid.remove(y));
            assert(v.lines.len() == self.lines.len() - 1);
            assert(v.lines[y - 1] == merged);
            match self.secondary {
                Some(s) => {
                    if s.y > y {
                        assert(v.lines[s.y - 1] == mid[s.y]);
                        assert(mid[s.y] == self.lines[s.y]);
                    } else if s.y < y && s.y < y - 1 {
                        assert(v.lines[s.y] == mid[s.y]);
                        assert(mid[s.y] == self.lines[s.y]);
                    }
                },
                None => {},
            }
        }
    }

    /// Moving one of the cursors one step and then re-fixing the vertical
    /// scroll offset. When the secondary cursor is addressed but absent, it
    /// is first created at the primary cursor and then moved. The offset is
    /// re-fixed for the primary cursor's line and then for the secondary
    /// cursor's line, so with both present the later (secondary) adjustment
    /// wins if they disagree.
    pub open spec fn after_move_cursor(self, dir: Direction, h: int, is_secondary: bool) -> BufView {
        let moved = if is_secondary {
            let start = match self.secondary {
                Some(s) => s,
                None => self.primary,
            };
            BufView { secondary: Some(moved_position(start, dir, self.lines)), ..self }
        } else {
            BufView { primary: moved_position(self.primary, dir, self.lines), ..self }
        };
        let off1 = scroll_fix(moved.offset_y, moved.primary.y, h);
        let off2 = match moved.secondary {
            Some(s) => scroll_fix(off1, s.y, h),
            None => off1,
        };
        BufView { offset_y: off2, ..moved }
    }

    /// Moving a cursor keeps the document well formed.
    pub proof fn lemma_move_cursor_wf(self, dir: Direction, h: int, is_secondary: bool)
        requires
            self.wf(),
        ensures
            self.after_move_cursor(dir, h, is_secondary).wf(),
    {
        let start = match self.secondary {
            Some(s) => s,
            None => self.primary,
        };
        if is_secondary {
            lemma_moved_position_in_bounds(start, dir, self.lines);
        } else {
            lemma_moved_position_in_bounds(self.primary, dir, self.lines);
        }
    }

    /// Inserting a character at both cursors is literally two sequential
    /// single-cursor insertions: first at the primary cursor, then — if a
    /// secondary cursor exists — the primary cursor is parked at the (by now
    /// possibly shifted) secondary position, the same character is inserted
    /// there, and the primary cursor is put back where the first insertion
    /// left it. It is not an atomic two-point edit.
    pub open spec fn after_insert_both(self, ch: char) -> BufView {
        let v1 = self.after_insert_char(ch);
        match v1.secondary {
            None => v1,
            Some(s) => {
                let v3 = BufView { primary: s, ..v1 }.after_insert_char(ch);
                BufView { primary: v1.primary, ..v3 }
            },
        }
    }

    /// Inserting at both cursors keeps the document well formed.
    pub proof fn lemma_insert_both_wf(self, ch: char)
        requires
            self.wf(),
        ensures
            self.after_insert_both(ch).wf(),
    {
        self.lemma_insert_char_wf(ch);
        let v1 = self.after_insert_char(ch);
        match v1.secondary {
            None => {},
            Some(s) => {
                let v2 = BufView { primary: s, ..v1 };
                v2.lemma_insert_char_wf(ch);
                let v3 = v2.after_insert_char(ch);
                assert(v3.lines[v1.primary.y].len() >= v1.lines[v1.primary.y].len());
            },
        }
    }

    /// Toggling the secondary cursor: remove it if present, otherwise create
    /// it at the primary cursor's position.
    pub open spec fn after_toggle_secondary(self) -> BufView {
        match self.secondary {
            Some(_) => BufView { secondary: None, ..self },
            None => BufView { secondary: Some(self.primary), ..self },
        }
    }
}

/// Where a cursor at `p` lands after one step in `dir` through `lines`.
/// Vertical moves clamp the column to the destination line's length; at the
/// start of a line, left wraps to the end of the previous line, and at the
/// end of a line, right wraps to the start of the next; at the document's
/// extremes the step is a no-op.
pub open spec fn moved_position(p: PosView, dir: Direction, lines: Seq<Seq<char>>) -> PosView {
    match dir {
        Direction::Up => if p.y > 0 {
            PosView {
                x: if p.x <= lines[p.y - 1].len() {
                    p.x
                } else {
                    lines[p.y - 1].len() as int
                },
                y: p.y - 1,
            }
        } else {
            p
        },
        Direction::Down => if p.y < lines.len() - 1 {
            PosView {
                x: if p.x <= lines[p.y + 1].len() {
                    p.x
                } else {
                    lines[p.y + 1].len() as int
                },
                y: p.y + 1,
            }
        } else {
            p
        },
        Direction::Left => if p.x > 0 {
            PosView { x: p.x - 1, y: p.y }
        } else if p.y > 0 {
            PosView { x: lines[p.y - 1].len() as int, y: p.y - 1 }
        } else {
            p
        },
        Direction::Right => if p.x < lines[p.y].len() {
            PosView { x: p.x + 1, y: p.y }
        } else if p.y < lines.len() - 1 {
            PosView { x: 0, y: p.y + 1 }
        } else {
            p
        },
    }
}

/// A step never leaves the document.
pub proof fn lemma_moved_position_in_bounds(p: PosView, dir: Direction, lines: Seq<Seq<char>>)
    requires
        lines.len() >= 1,
        p.in_bounds(lines),
    ensures
        moved_position(p, dir, lines).in_bounds(lines),
{
}

/// The vertical scroll offset re-fixed so that line `y` is visible in a
/// viewport of `h` rows starting at line `off`: scroll up to `y` when it is
/// above the window, down to `y - h + 1` when it is below, else stay.
pub open spec fn scroll_fix(off: int, y: int, h: int) -> int {
    if y < off {
        y
    } else if y - off >= h {
        y - h + 1
    } else {
        off
    }
}

/// After any navigation call the viewport contains the cursor that was
/// adjusted for last: the secondary cursor whenever one exists, otherwise
/// the primary cursor. (With both cursors present the primary's containment
/// is only best-effort, since the secondary's adjustment is applied after it
/// and wins when the two disagree.)
pub proof fn lemma_move_keeps_cursor_visible(v: BufView, dir: Direction, h: int, is_secondary: bool)
    requires
        v.wf(),
        h >= 1,
    ensures
        ({
            let m = v.after_move_cursor(dir, h, is_secondary);
            match m.secondary {
                Some(s) => m.offset_y <= s.y < m.offset_y + h,
                None => m.offset_y <= m.primary.y < m.offset_y + h,
            }
        }),
{
}

/// The buffer owned by an editing session.
pub struct TextBuffer {
    pub lines: Vec<Vec<char>>,
    pub primary: Position,
    pub secondary: Option<Position>,
    pub offset_x: usize,
    pub offset_y: usize,
    pub modified: bool,
    pub filename: Option<String>,
}

impl View for TextBuffer {
    type V = BufView;

    open spec fn view(&self) -> BufView {
        BufView {
            lines: text::lines_view(self.lines@),
            primary: self.primary@,
            secondary: match self.secondary {
                Some(p) => Some(p@),
                None => None,
            },
            offset_x: self.offset_x as int,
            offset_y: self.offset_y as int,
            modified: self.modified,
            filename: match self.filename {
                Some(s) => Some(s@),
                None => None,
            },
        }
    }
}

impl TextBuffer {
    /// A new empty buffer: a single empty line, cursor at the origin.
    pub fn new() -> (r: TextBuffer)
        ensures
            r@ == BufView::init(),
            r@.wf(),
    {
        let mut lines: Vec<Vec<char>> = Vec::new();
        lines.push(Vec::new());
        let r = TextBuffer {
            lines,
            primary: Position { x: 0, y: 0 },
            secondary: None,
            offset_x: 0,
            offset_y: 0,
            modified: false,
            filename: None,
        };
        proof {
            assert(r@ =~~= BufView::init());
        }
        r
    }

    /// A buffer hydrated from a file's full text, split at line breaks, and
    /// associated with the file it came from.
    pub fn from_text(full_text: &Vec<char>, filename: Option<String>) -> (r: TextBuffer)
        ensures
            r@ == BufView::loaded(full_text@, match filename {
                Some(s) => Some(s@),
                None => None,
            }),
            r@.wf(),
    {
        let lines = text::split_chars(full_text);
        let r = TextBuffer {
            lines,
            primary: Position { x: 0, y: 0 },
            secondary: None,
            offset_x: 0,
            offset_y: 0,
            modified: false,
            filename,
        };
        proof {
            text::lemma_split_text_len(full_text@);
            assert(r@ =~~= BufView::loaded(full_text@, match filename {
                Some(s) => Some(s@),
                None => None,
            }));
        }
        r
    }

    /// The document serialized for saving: the lines joined by single line
    /// feeds, with no trailing line feed.
    pub fn to_text(&self) -> (r: Vec<char>)
        ensures
            r@ == text::join_text(self@.lines),
    {
        text::join_chars(&self.lines)
    }

    /// What a save must write: the serialized document when a path is
    /// associated, and nothing when none is — then there is nothing to save,
    /// which is not an error.
    pub fn save_payload(&self) -> (r: Option<Vec<char>>)
        ensures
            match r {
                Some(t) => self@.filename is Some && t@ == text::join_text(self@.lines),
                None => self@.filename is None,
            },
    {
        if self.filename.is_some() {
            Some(self.to_text())
        } else {
            None
        }
    }

    /// Record that the document was successfully written out: clears the
    /// dirty flag and changes nothing else.
    pub fn mark_saved(&mut self)
        ensures
            final(self)@ == (BufView { modified: false, ..old(self)@ }),
    {
        self.modified = false;
    }

    /// Associate the buffer with a file path (or detach it).
    pub fn set_filename(&mut self, filename: Option<String>)
        ensures
            final(self)@ == (BufView {
                filename: match filename {
                    Some(s) => Some(s@),
                    None => None,
                },
                ..old(self)@
            }),
    {
        self.filename = filename;
    }

    /// The number of lines in the document.
    pub fn line_count(&self) -> (n: usize)
        ensures
            n == self@.lines.len(),
    {
        self.lines.len()
    }

    /// The line the primary cursor is on.
    pub fn current_line(&self) -> (l: &Vec<char>)
        requires
            self@.wf(),
        ensures
            l@ == self@.lines[self@.primary.y],
    {
        &self.lines[self.primary.y]
    }

    /// Insert `ch` at the primary cursor and advance the cursor past it. A
    /// secondary cursor on the same line at or after the insertion point is
    /// shifted right with the text. Marks the buffer dirty.
    pub fn insert_char(&mut self, ch: char)
        requires
            old(self)@.wf(),
            old(self)@.lines[old(self)@.primary.y].len() < usize::MAX,
        ensures
            final(self)@ == old(self)@.after_insert_char(ch),
            final(self)@.wf(),
    {
        let x = self.primary.x;
        let y = self.primary.y;
        let ghost lines0 = self.lines@;
        let mut line = self.lines.remove(y);
        line.insert(x, ch);
        self.lines.insert(y, line);
        self.primary = Position { x: x + 1, y };
        if let Some(s) = self.secondary {
            if s.y == y && s.x >= x {
                self.secondary = Some(Position { x: s.x + 1, y: s.y });
            }
        }
        self.modified = true;
        proof {
            assert(self.lines@ =~= lines0.update(y as int, self.lines@[y as int]));
            assert(text::lines_view(self.lines@) =~~= text::lines_view(lines0).update(
                y as int,
                lines0[y as int]@.insert(x as int, ch),
            ));
            assert(self@ =~~= old(self)@.after_insert_char(ch));
            old(self)@.lemma_insert_char_wf(ch);
        }
    }

    /// Split the current line at the primary cursor and move the cursor to
    /// the start of the new line below. Marks the buffer dirty.
    pub fn insert_newline(&mut self)
        requires
            old(self)@.wf(),
        ensures
            final(self)@ == old(self)@.after_insert_newline(),
            final(self)@.wf(),
    {
        let x = self.primary.x;
        let y = self.primary.y;
        // The line count fits in usize, so line indices below the split and
        // the grown document stay representable.
        let n = self.lines.len();
        assert(y < n);
        let ghost lines0 = self.lines@;
        let mut left = self.lines.remove(y);
        let right = left.split_off(x);
        self.lines.insert(y, left);
        self.lines.insert(y + 1, right);
        self.primary = Position { x: 0, y: y + 1 };
        if let Some(s) = self.secondary {
            if s.y > y {
                self.secondary = Some(Position { x: s.x, y: s.y + 1 });
            } else if s.y == y && s.x > x {
                self.secondary = Some(Position { x, y: s.y });
            }
        }
        self.modified = true;
        proof {
            let lv0 = text::lines_view(lines0);
            assert(self.lines@ =~= lines0.update(y as int, self.lines@[y as int]).insert(
                y + 1,
                self.lines@[y + 1],
            ));
            assert(text::lines_view(self.lines@) =~~= lv0.update(
                y as int,
                lv0[y as int].take(x as int),
            ).insert(y + 1, lv0[y as int].skip(x as int)));
            assert(self@ =~~= old(self)@.after_insert_newline());
            old(self)@.lemma_insert_newline_wf();
        }
    }

    /// Delete the character before the primary cursor, merging the current
    /// line into the previous one when the cursor is at the start of a line.
    /// At the start of the document this is a no-op.
    pub fn delete_char(&mut self)
        requires
            old(self)@.wf(),
        ensures
            final(self)@ == old(self)@.after_delete_char(),
            final(self)@.wf(),
    {
        let x = self.primary.x;
        let y = self.primary.y;
        let ghost lines0 = self.lines@;
        if x > 0 {
            let mut line = self.lines.remove(y);
            line.remove(x - 1);
            self.lines.insert(y, line);
            self.primary = Position { x: x - 1, y };
            if let Some(s) = self.secondary {
                if s.y == y && s.x >= x {
                    self.secondary = Some(Position { x: s.x - 1, y: s.y });
                }
            }
            self.modified = true;
            proof {
                let lv0 = text::lines_view(lines0);
                assert(self.lines@ =~= lines0.update(y as int, self.lines@[y as int]));
                assert(text::lines_view(self.lines@) =~~= lv0.update(
                    y as int,
                    lv0[y as int].remove(x - 1),
                ));
                assert(self@ =~~= old(self)@.after_delete_char());
                old(self)@.lemma_delete_char_wf();
            }
        } else if y > 0 {
            let mut removed = self.lines.remove(y);
            let mut prev = self.lines.remove(y - 1);
            let prev_len = prev.len();
            prev.append(&mut removed);
            // The merged line exists as one vector, so a position on it (in
            // particular the re-anchored secondary cursor) fits in usize.
            let merged_len = prev.len();
            self.lines.insert(y - 1, prev);
            self.primary = Position { x: prev_len, y: y - 1 };
            if let Some(s) = self.secondary {
                if s.y > y {
                    self.secondary = Some(Position { x: s.x, y: s.y - 1 });
                } else if s.y == y {
                    assert(prev_len + s.x <= merged_len);
                    self.secondary = Some(Position { x: prev_len + s.x, y: y - 1 });
                }
            }
            self.modified = true;
            proof {
                let lv0 = text::lines_view(lines0);
                assert(self.lines@ =~= lines0.update(y - 1, self.lines@[y - 1]).remove(y as int));
                assert(text::lines_view(self.lines@) =~~= lv0.update(
                    y - 1,
                    lv0[y - 1] + lv0[y as int],
                ).remove(y as int));
                assert(self@ =~~= old(self)@.after_delete_char());
                old(self)@.lemma_delete_char_wf();
            }
        }
    }

    /// One step of `p` in `direction`, clamped and wrapped as
    /// `moved_position` describes.
    fn moved_from(&self, p: Position, direction: Direction) -> (r: Position)
        requires
            self@.wf(),
            p@.in_bounds(self@.lines),
        ensures
            r@ == moved_position(p@, direction, self@.lines),
            r@.in_bounds(self@.lines),
    {
        proof {
            lemma_moved_position_in_bounds(p@, direction, self@.lines);
        }
        match direction {
            Direction::Up => {
                if p.y > 0 {
                    let len = self.lines[p.y - 1].len();
                    Position { x: if p.x <= len { p.x } else { len }, y: p.y - 1 }
                } else {
                    p
                }
            },
            Direction::Down => {
                if p.y < self.lines.len() - 1 {
                    let len = self.lines[p.y + 1].len();
                    Position { x: if p.x <= len { p.x } else { len }, y: p.y + 1 }
                } else {
                    p
                }
            },
            Direction::Left => {
                if p.x > 0 {
                    Position { x: p.x - 1, y: p.y }
                } else if p.y > 0 {
                    Position { x: self.lines[p.y - 1].len(), y: p.y - 1 }
                } else {
                    p
                }
            },
            Direction::Right => {
                if p.x < self.lines[p.y].len() {
                    Position { x: p.x + 1, y: p.y }
                } else if p.y < self.lines.len() - 1 {
                    Position { x: 0, y: p.y + 1 }
                } else {
                    p
                }
            },
        }
    }

    /// Move the addressed cursor one step (creating the secondary cursor at
    /// the primary's position first, if it is addressed but absent), then
    /// re-fix the vertical scroll offset so the moved cursors' lines come
    /// back into a viewport of `viewport_size.1` rows. Moving never changes
    /// the document or the dirty flag.
    pub fn move_cursor(&mut self, direction: Direction, viewport_size: (u16, u16), is_secondary: bool)
        requires
            old(self)@.wf(),
            viewport_size.1 >= 1,
        ensures
            final(self)@ == old(self)@.after_move_cursor(
                direction,
                viewport_size.1 as int,
                is_secondary,
            ),
            final(self)@.wf(),
    {
        let h = viewport_size.1 as usize;
        if is_secondary {
            let start = match self.secondary {
                Some(s) => s,
                None => self.primary,
            };
            let m = self.moved_from(start, direction);
            self.secondary = Some(m);
        } else {
            let m = self.moved_from(self.primary, direction);
            self.primary = m;
        }
        if self.primary.y < self.offset_y {
            self.offset_y = self.primary.y;
        } else if self.primary.y - self.offset_y >= h {
            self.offset_y = self.primary.y - h + 1;
        }
        if let Some(s) = self.secondary {
            if s.y < self.offset_y {
                self.offset_y = s.y;
            } else if s.y - self.offset_y >= h {
                self.offset_y = s.y - h + 1;
            }
        }
        proof {
            assert(self@ =~~= old(self)@.after_move_cursor(
                direction,
                viewport_size.1 as int,
                is_secondary,
            ));
            old(self)@.lemma_move_cursor_wf(direction, viewport_size.1 as int, is_secondary);
        }
    }

    /// Mutable access to the line the primary cursor is on. Whatever the
    /// caller writes through the reference replaces exactly that line; the
    /// cursors, offsets, flags and all other lines are untouched. The caller
    /// is responsible for leaving the line long enough for the cursors that
    /// sit on it.
    pub fn current_line_mut(&mut self) -> (l: &mut Vec<char>)
        requires
            old(self)@.wf(),
        ensures
            l@ == old(self)@.lines[old(self)@.primary.y],
            final(self)@ == (BufView {
                lines: old(self)@.lines.update(old(self)@.primary.y, final(l)@),
                ..old(self)@
            }),
    {
        &mut self.lines[self.primary.y]
    }

    /// Show or hide the secondary cursor; it appears at the primary cursor.
    pub fn toggle_secondary_cursor(&mut self)
        requires
            old(self)@.wf(),
        ensures
            final(self)@ == old(self)@.after_toggle_secondary(),
            final(self)@.wf(),
    {
        if self.secondary.is_some() {
            self.secondary = None;
        } else {
            self.secondary = Some(self.primary);
        }
    }

    /// Insert `ch` at the primary cursor and then, if a secondary cursor
    /// exists, insert it once more at the secondary position: two sequential
    /// single-cursor insertions, as `after_insert_both` spells out.
    pub fn insert_char_at_both_cursors(&mut self, ch: char)
        requires
            old(self)@.wf(),
            old(self)@.lines[old(self)@.primary.y].len() < usize::MAX,
            match old(self)@.secondary {
                Some(s) => if s.y == old(self)@.primary.y {
                    old(self)@.lines[s.y].len() + 1 < usize::MAX
                } else {
                    old(self)@.lines[s.y].len() < usize::MAX
                },
                None => true,
            },
        ensures
            final(self)@ == old(self)@.after_insert_both(ch),
            final(self)@.wf(),
    {
        self.insert_char(ch);
        let ghost v1 = self@;
        if let Some(s) = self.secondary {
            let main = self.primary;
            self.primary = s;
            assert(self@ == (BufView { primary: s@, ..v1 }));
            self.insert_char(ch);
            self.primary = main;
            proof {
                assert(self@ =~~= old(self)@.after_insert_both(ch));
            }
        }
        proof {
            old(self)@.lemma_insert_both_wf(ch);
        }
    }
}

/// Inserting any single character at the primary cursor and deleting it
/// right back out restores the document and both cursors exactly: insertion
/// and backspace are inverses at a fixed point. (The dirty flag, by design,
/// stays set: the buffer was touched.)
pub proof fn lemma_insert_then_delete(v: BufView, ch: char)
    requires
        v.wf(),
    ensures
        v.after_insert_char(ch).after_delete_char().lines == v.lines,
        v.after_insert_char(ch).after_delete_char().primary == v.primary,
        v.after_insert_char(ch).after_delete_char().secondary == v.secondary,
{
    let x = v.primary.x;
    let y = v.primary.y;
    v.lemma_insert_char_wf(ch);
    let v1 = v.after_insert_char(ch);
    let v2 = v1.after_delete_char();
    assert(v1.lines[y].remove(x) =~= v.lines[y]);
    assert(v2.lines =~~= v.lines);
}

} // verus!
