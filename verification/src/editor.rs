//! The editing core of the editor: a tab's lines and cursor, the edits that
//! change them, and the undo and redo that take the edits back and forth.
//!
//! A line is held as its characters, so a column is an index into it. What
//! an edit does is stated over a spot: the lines as sequences of characters
//! and the cursor as a column and a line number.

use vstd::prelude::*;
use crate::text::{chars_of, is_white, is_white_char, push_char};
use crate::spans::{close_after, is_word, is_word_char, unmatched_after};
use crate::text::utf8_width;
use crate::outline::{lead_white, skip_white, starts, trim, trim_start};

verus! {

/// One change to a tab, recorded so that it can be undone and redone.
/// A position is a column and a line number, in that order.
pub enum EditOperation {
    InsertChar { position: (usize, usize), char: char },
    DeleteChar { position: (usize, usize), char: char },
    DeleteNewline { position: (usize, usize), merged_content: String },
    InsertText { position: (usize, usize), text: String },
    DeleteText { position: (usize, usize), text: String },
    ReplaceText { position: (usize, usize), old_text: String, new_text: String },
    BatchOperation { operations: Vec<EditOperation> },
}

/// The lines of a tab, the cursor in it, and its undo and redo history.
pub struct Tab {
    pub content: Vec<Vec<char>>,
    pub cursor_x: usize,
    pub cursor_y: usize,
    pub modified: bool,
    pub undo_stack: Vec<EditOperation>,
    pub redo_stack: Vec<EditOperation>,
    pub char_insert_group: Vec<EditOperation>,
    pub selection_start: Option<(usize, usize)>,
    pub selection_end: Option<(usize, usize)>,
    pub selection_mode: bool,
}

/// The lines, the cursor's column and the cursor's line.
pub type Spot = (Seq<Seq<char>>, int, int);

/// A run of spaces.
pub open spec fn spaces(n: int) -> Seq<char> {
    Seq::new(n as nat, |i: int| ' ')
}

/// The column a character index stands for in a line: itself, or the end of
/// the line for an index past it.
pub open spec fn clamp(line: Seq<char>, x: int) -> int {
    if x < line.len() { x } else { line.len() as int }
}

/// Typing one character at the cursor. A newline splits the line; any other
/// character first gives the cursor a line to stand on (one past the last
/// line gets a new empty one) and fills the gap to the cursor with spaces.
pub open spec fn insert_one(s: Spot, c: char) -> Spot {
    let (lines, x, y) = s;
    if c == '\n' {
        let k = clamp(lines[y], x);
        (lines.update(y, lines[y].take(k)).insert(y + 1, lines[y].skip(k)), 0, y + 1)
    } else {
        let grown = if y >= lines.len() { lines.push(Seq::empty()) } else { lines };
        let line = grown[y];
        let padded = if x > line.len() { line + spaces(x - line.len()) } else { line };
        (grown.update(y, padded.insert(x, c)), x + 1, y)
    }
}

/// Whether typing the character at the spot stays inside the file and
/// inside the cursor's range.
pub open spec fn insert_one_ok(s: Spot, c: char) -> bool {
    let (lines, x, y) = s;
    &&& 0 <= x < usize::MAX
    &&& 0 <= y
    &&& if c == '\n' { y < lines.len() } else { y <= lines.len() }
}

/// Typing a whole text at the cursor, character by character.
pub open spec fn insert_all(s: Spot, text: Seq<char>) -> Spot
    decreases text.len(),
{
    if text.len() == 0 {
        s
    } else {
        insert_one(insert_all(s, text.drop_last()), text.last())
    }
}

/// Whether every character of the text can be typed in turn.
pub open spec fn insert_all_ok(s: Spot, text: Seq<char>) -> bool
    decreases text.len(),
{
    if text.len() == 0 {
        true
    } else {
        insert_all_ok(s, text.drop_last()) && insert_one_ok(insert_all(s, text.drop_last()), text.last())
    }
}

/// Deleting the character under the cursor: inside a line the character
/// goes; at the end of a line the next line is pulled up; past the last line,
/// or at the end of the last line, nothing changes.
pub open spec fn delete_one(s: Spot) -> Spot {
    let (lines, x, y) = s;
    if y >= lines.len() || y < 0 {
        s
    } else if 0 <= x < lines[y].len() {
        (lines.update(y, lines[y].remove(x)), x, y)
    } else if y + 1 < lines.len() {
        (lines.update(y, lines[y] + lines[y + 1]).remove(y + 1), x, y)
    } else {
        s
    }
}

/// Deleting the given number of characters under the cursor.
pub open spec fn delete_n(s: Spot, n: nat) -> Spot
    decreases n,
{
    if n == 0 {
        s
    } else {
        delete_one(delete_n(s, (n - 1) as nat))
    }
}


/// The spot with the cursor moved to a recorded position.
pub open spec fn at(s: Spot, position: (usize, usize)) -> Spot {
    (s.0, position.0 as int, position.1 as int)
}

/// Putting one character back into its line at the cursor, and stepping
/// past it; past the last line nothing changes.
pub open spec fn put_at(s: Spot, c: char) -> Spot {
    let (lines, x, y) = s;
    if 0 <= y < lines.len() {
        (lines.update(y, lines[y].insert(clamp(lines[y], x), c)), x + 1, y)
    } else {
        s
    }
}

/// Taking the character under the cursor out of its line, if there is one.
pub open spec fn remove_at(s: Spot) -> Spot {
    let (lines, x, y) = s;
    if 0 <= y < lines.len() && 0 <= x < lines[y].len() {
        (lines.update(y, lines[y].remove(x)), x, y)
    } else {
        s
    }
}

/// Splitting the cursor's line at the cursor, with the given text as the
/// new line below it, and moving to the start of that line.
pub open spec fn split_at(s: Spot, below: Seq<char>) -> Spot {
    let (lines, x, y) = s;
    if 0 <= y < lines.len() {
        let k = clamp(lines[y], x);
        (lines.update(y, lines[y].take(k)).insert(y + 1, below), 0, y + 1)
    } else {
        s
    }
}

/// Pulling the line below the cursor's line up onto its end.
pub open spec fn join_at(s: Spot) -> Spot {
    let (lines, x, y) = s;
    if 0 <= y && y + 1 < lines.len() {
        (lines.update(y, lines[y] + lines[y + 1]).remove(y + 1), x, y)
    } else {
        s
    }
}

/// What applying an edit does to the spot, forward (redo) or backward (undo).
pub open spec fn applied(s: Spot, op: EditOperation, reverse: bool) -> Spot
    decreases op,
{
    match op {
        EditOperation::InsertChar { position, char } => {
            if reverse { remove_at(at(s, position)) } else { put_at(at(s, position), char) }
        },
        EditOperation::DeleteChar { position, char } => {
            if reverse { put_at(at(s, position), char) } else { remove_at(at(s, position)) }
        },
        EditOperation::DeleteNewline { position, merged_content } => {
            if reverse { split_at(at(s, position), merged_content@) } else { join_at(at(s, position)) }
        },
        EditOperation::InsertText { position, text } => {
            if reverse {
                delete_n(at(s, position), text@.len())
            } else {
                insert_all(at(s, position), text@)
            }
        },
        EditOperation::DeleteText { position, text } => {
            if reverse {
                insert_all(at(s, position), text@)
            } else {
                delete_n(at(s, position), text@.len())
            }
        },
        EditOperation::ReplaceText { position, old_text, new_text } => {
            if reverse {
                insert_all(delete_n(at(s, position), new_text@.len()), old_text@)
            } else {
                insert_all(delete_n(at(s, position), old_text@.len()), new_text@)
            }
        },
        EditOperation::BatchOperation { operations } => {
            if reverse { undone_all(s, operations@) } else { applied_all(s, operations@) }
        },
    }
}

/// Applying edits forward, first to last.
pub open spec fn applied_all(s: Spot, ops: Seq<EditOperation>) -> Spot
    decreases ops,
{
    if ops.len() == 0 {
        s
    } else {
        applied(applied_all(s, ops.drop_last()), ops.last(), false)
    }
}

/// Applying edits backward, last to first.
pub open spec fn undone_all(s: Spot, ops: Seq<EditOperation>) -> Spot
    decreases ops,
{
    if ops.len() == 0 {
        s
    } else {
        applied(undone_all(s, ops.skip(1)), ops[0], true)
    }
}

/// Whether applying the edit stays inside the file and the cursor's range.
pub open spec fn applicable(s: Spot, op: EditOperation, reverse: bool) -> bool
    decreases op,
{
    match op {
        EditOperation::InsertChar { position, char } => {
            reverse || position.0 < usize::MAX
        },
        EditOperation::DeleteChar { position, char } => {
            !reverse || position.0 < usize::MAX
        },
        EditOperation::DeleteNewline { position, merged_content } => true,
        EditOperation::InsertText { position, text } => {
            reverse || insert_all_ok(at(s, position), text@)
        },
        EditOperation::DeleteText { position, text } => {
            !reverse || insert_all_ok(at(s, position), text@)
        },
        EditOperation::ReplaceText { position, old_text, new_text } => {
            if reverse {
                insert_all_ok(delete_n(at(s, position), new_text@.len()), old_text@)
            } else {
                insert_all_ok(delete_n(at(s, position), old_text@.len()), new_text@)
            }
        },
        EditOperation::BatchOperation { operations } => {
            if reverse {
                all_undoable(s, operations@)
            } else {
                all_applicable(s, operations@)
            }
        },
    }
}

/// Whether edits can be applied forward in turn.
pub open spec fn all_applicable(s: Spot, ops: Seq<EditOperation>) -> bool
    decreases ops,
{
    if ops.len() == 0 {
        true
    } else {
        all_applicable(s, ops.drop_last()) && applicable(applied_all(s, ops.drop_last()), ops.last(), false)
    }
}

/// Whether edits can be applied backward in turn.
pub open spec fn all_undoable(s: Spot, ops: Seq<EditOperation>) -> bool
    decreases ops,
{
    if ops.len() == 0 {
        true
    } else {
        all_undoable(s, ops.skip(1)) && applicable(undone_all(s, ops.skip(1)), ops[0], true)
    }
}

/// The text of a tab as one sequence: every line followed by a newline.
pub open spec fn flat(lines: Seq<Seq<char>>) -> Seq<char>
    decreases lines.len(),
{
    if lines.len() == 0 {
        Seq::empty()
    } else {
        lines[0] + seq!['\n'] + flat(lines.skip(1))
    }
}

/// Whether no line holds a newline: a newline is what separates lines.
pub open spec fn newline_free(lines: Seq<Seq<char>>) -> bool {
    forall|i: int, j: int| 0 <= i < lines.len() && 0 <= j < lines[i].len() ==> #[trigger] lines[i][j] != '\n'
}

/// Whether a column and a line number point into the lines: at one of the
/// characters of a line, or just after its last one.
pub open spec fn inside(lines: Seq<Seq<char>>, x: int, y: int) -> bool {
    0 <= y < lines.len() && 0 <= x <= lines[y].len()
}

/// Where a column and a line number fall in the flat text.
pub open spec fn offset(lines: Seq<Seq<char>>, x: int, y: int) -> int {
    flat(lines.take(y)).len() + x
}

proof fn lemma_flat_append(a: Seq<Seq<char>>, b: Seq<Seq<char>>)
    ensures
        flat(a + b) == flat(a) + flat(b),
    decreases a.len(),
{
    if a.len() == 0 {
        assert(a + b == b);
    } else {
        assert((a + b).skip(1) == a.skip(1) + b);
        lemma_flat_append(a.skip(1), b);
        assert((a + b)[0] == a[0]);
    }
}

proof fn lemma_flat_split(lines: Seq<Seq<char>>, y: int)
    requires
        0 <= y < lines.len(),
    ensures
        flat(lines) == flat(lines.take(y)) + lines[y] + seq!['\n'] + flat(lines.skip(y + 1)),
{
    let rest = seq![lines[y]] + lines.skip(y + 1);
    assert(lines == lines.take(y) + rest);
    lemma_flat_append(lines.take(y), rest);
    assert(rest.skip(1) == lines.skip(y + 1));
    assert(flat(rest) == lines[y] + seq!['\n'] + flat(lines.skip(y + 1)));
    assert(flat(lines) == flat(lines.take(y)) + lines[y] + seq!['\n'] + flat(lines.skip(y + 1)));
}

proof fn lemma_flat_take_next(lines: Seq<Seq<char>>, y: int)
    requires
        0 <= y < lines.len(),
    ensures
        flat(lines.take(y + 1)) == flat(lines.take(y)) + lines[y] + seq!['\n'],
{
    lemma_flat_split(lines.take(y + 1), y);
    assert(lines.take(y + 1).take(y) == lines.take(y));
    assert(lines.take(y + 1).skip(y + 1).len() == 0);
    assert(flat(lines.take(y + 1).skip(y + 1)) == Seq::<char>::empty());
}

proof fn lemma_flat_injective(a: Seq<Seq<char>>, b: Seq<Seq<char>>)
    requires
        newline_free(a),
        newline_free(b),
        flat(a) == flat(b),
    ensures
        a == b,
    decreases a.len(),
{
    if a.len() == 0 {
        if b.len() > 0 {
            assert(flat(b).len() > 0);
        }
        assert(a =~= b);
    } else {
        if b.len() == 0 {
            assert(flat(a).len() > 0);
        }
        let fa = flat(a);
        let fb = flat(b);
        assert(fa[a[0].len() as int] == '\n');
        assert(fb[b[0].len() as int] == '\n');
        if a[0].len() < b[0].len() {
            assert(fb[a[0].len() as int] == b[0][a[0].len() as int]);
            assert(false);
        }
        if b[0].len() < a[0].len() {
            assert(fa[b[0].len() as int] == a[0][b[0].len() as int]);
            assert(false);
        }
        assert(a[0] =~= b[0]) by {
            assert forall|j: int| 0 <= j < a[0].len() implies a[0][j] == b[0][j] by {
                assert(fa[j] == a[0][j]);
                assert(fb[j] == b[0][j]);
            }
        }
        let n: int = a[0].len() as int + 1;
        assert(flat(a.skip(1)) =~= fa.skip(n));
        assert(flat(b.skip(1)) =~= fb.skip(n));
        assert forall|i: int, j: int| 0 <= i < a.skip(1).len() && 0 <= j < a.skip(1)[i].len()
            implies #[trigger] a.skip(1)[i][j] != '\n' by {
            assert(a.skip(1)[i] == a[i + 1]);
        }
        assert forall|i: int, j: int| 0 <= i < b.skip(1).len() && 0 <= j < b.skip(1)[i].len()
            implies #[trigger] b.skip(1)[i][j] != '\n' by {
            assert(b.skip(1)[i] == b[i + 1]);
        }
        lemma_flat_injective(a.skip(1), b.skip(1));
        assert(a =~= seq![a[0]] + a.skip(1));
        assert(b =~= seq![b[0]] + b.skip(1));
    }
}

/// Whether a cursor stands at or after an origin.
pub open spec fn not_before(x: int, y: int, x0: int, y0: int) -> bool {
    y > y0 || (y == y0 && x >= x0)
}

proof fn lemma_insert_one_flat(s: Spot, c: char, x0: int, y0: int)
    requires
        newline_free(s.0),
        inside(s.0, s.1, s.2),
        inside(s.0, x0, y0),
        not_before(s.1, s.2, x0, y0),
    ensures
        newline_free(insert_one(s, c).0),
        inside(insert_one(s, c).0, insert_one(s, c).1, insert_one(s, c).2),
        inside(insert_one(s, c).0, x0, y0),
        not_before(insert_one(s, c).1, insert_one(s, c).2, x0, y0),
        insert_one(s, c).0.take(y0) == s.0.take(y0),
        insert_one(s, c).0[y0].take(x0) == s.0[y0].take(x0),
        flat(insert_one(s, c).0) == flat(s.0).insert(offset(s.0, s.1, s.2), c),
        offset(insert_one(s, c).0, insert_one(s, c).1, insert_one(s, c).2) == offset(s.0, s.1, s.2) + 1,
{
    let (lines, x, y) = s;
    let line = lines[y];
    let t = insert_one(s, c);
    let lt = t.0;
    lemma_flat_split(lines, y);
    let a = flat(lines.take(y));
    let b = flat(lines.skip(y + 1));
    if c == '\n' {
        assert(clamp(line, x) == x);
        assert(lt == lines.update(y, line.take(x)).insert(y + 1, line.skip(x)));
        assert(lt.take(y) =~= lines.take(y));
        assert(lt[y] == line.take(x));
        assert(lt[y + 1] == line.skip(x));
        assert(lt.skip(y + 2) =~= lines.skip(y + 1));
        lemma_flat_split(lt, y + 1);
        lemma_flat_take_next(lt, y);
        assert(lt.take(y + 1).take(y) =~= lines.take(y));
        assert(flat(lt) =~= flat(lines).insert(a.len() + x, c));
        assert forall|i: int, j: int| 0 <= i < lt.len() && 0 <= j < lt[i].len() implies #[trigger] lt[i][j] != '\n' by {
            if i < y {
                assert(lt[i] == lines[i]);
            } else if i == y {
                assert(lt[i][j] == line[j]);
            } else if i == y + 1 {
                assert(lt[i][j] == line[j + x]);
            } else {
                assert(lt[i] == lines[i - 1]);
            }
        }
        assert(lt.take(y0) =~= lines.take(y0));
        if y0 < y {
            assert(lt[y0] == lines[y0]);
        } else {
            assert(lt[y0].take(x0) =~= line.take(x0));
        }
    } else {
        assert(lt == lines.update(y, line.insert(x, c)));
        assert(lt.take(y) =~= lines.take(y));
        assert(lt.skip(y + 1) =~= lines.skip(y + 1));
        lemma_flat_split(lt, y);
        assert(flat(lt) =~= flat(lines).insert(a.len() + x, c));
        assert forall|i: int, j: int| 0 <= i < lt.len() && 0 <= j < lt[i].len() implies #[trigger] lt[i][j] != '\n' by {
            if i != y {
                assert(lt[i] == lines[i]);
            } else if j < x {
                assert(lt[i][j] == line[j]);
            } else if j > x {
                assert(lt[i][j] == line[j - 1]);
            }
        }
        assert(lt.take(y0) =~= lines.take(y0));
        if y0 < y {
            assert(lt[y0] == lines[y0]);
        } else {
            assert(lt[y0].take(x0) =~= line.take(x0));
        }
    }
}

proof fn lemma_insert_all_flat(s: Spot, text: Seq<char>)
    requires
        newline_free(s.0),
        inside(s.0, s.1, s.2),
    ensures
        newline_free(insert_all(s, text).0),
        inside(insert_all(s, text).0, insert_all(s, text).1, insert_all(s, text).2),
        inside(insert_all(s, text).0, s.1, s.2),
        not_before(insert_all(s, text).1, insert_all(s, text).2, s.1, s.2),
        insert_all(s, text).0.take(s.2) == s.0.take(s.2),
        insert_all(s, text).0[s.2].take(s.1) == s.0[s.2].take(s.1),
        flat(insert_all(s, text).0) == flat(s.0).take(offset(s.0, s.1, s.2)) + text + flat(s.0).skip(
            offset(s.0, s.1, s.2),
        ),
        offset(insert_all(s, text).0, insert_all(s, text).1, insert_all(s, text).2) == offset(s.0, s.1, s.2)
            + text.len(),
    decreases text.len(),
{
    let off = offset(s.0, s.1, s.2);
    let f = flat(s.0);
    lemma_flat_split(s.0, s.2);
    assert(off < f.len());
    if text.len() == 0 {
        assert(f.take(off) + text + f.skip(off) =~= f);
        assert(s.0[s.2].take(s.1) == s.0[s.2].take(s.1));
    } else {
        let front = text.drop_last();
        lemma_insert_all_flat(s, front);
        let mid = insert_all(s, front);
        lemma_insert_one_flat(mid, text.last(), s.1, s.2);
        assert(mid.0[s.2].take(s.1) == s.0[s.2].take(s.1));
        assert(flat(mid.0).insert(off + front.len(), text.last()) =~= f.take(off) + text + f.skip(off));
    }
}

proof fn lemma_delete_one_flat(s: Spot)
    requires
        newline_free(s.0),
        inside(s.0, s.1, s.2),
        offset(s.0, s.1, s.2) < flat(s.0).len() - 1,
    ensures
        delete_one(s).1 == s.1,
        delete_one(s).2 == s.2,
        newline_free(delete_one(s).0),
        inside(delete_one(s).0, s.1, s.2),
        delete_one(s).0.take(s.2) == s.0.take(s.2),
        flat(delete_one(s).0) == flat(s.0).remove(offset(s.0, s.1, s.2)),
{
    let (lines, x, y) = s;
    let line = lines[y];
    let d = delete_one(s).0;
    lemma_flat_split(lines, y);
    let a = flat(lines.take(y));
    if x < line.len() {
        assert(d == lines.update(y, line.remove(x)));
        assert(d.take(y) =~= lines.take(y));
        assert(d.skip(y + 1) =~= lines.skip(y + 1));
        lemma_flat_split(d, y);
        assert(flat(d) =~= flat(lines).remove(a.len() + x));
        assert forall|i: int, j: int| 0 <= i < d.len() && 0 <= j < d[i].len() implies #[trigger] d[i][j] != '\n' by {
            if i != y {
                assert(d[i] == lines[i]);
            } else if j < x {
                assert(d[i][j] == line[j]);
            } else {
                assert(d[i][j] == line[j + 1]);
            }
        }
    } else {
        if y + 1 >= lines.len() {
            assert(lines.skip(y + 1).len() == 0);
            assert(flat(lines.skip(y + 1)) == Seq::<char>::empty());
            assert(false);
        }
        let next = lines[y + 1];
        assert(d == lines.update(y, line + next).remove(y + 1));
        assert(d.take(y) =~= lines.take(y));
        assert(d.skip(y + 1) =~= lines.skip(y + 2));
        assert(lines.skip(y + 1).skip(1) =~= lines.skip(y + 2));
        assert(lines.skip(y + 1)[0] == next);
        assert(flat(lines.skip(y + 1)) == next + seq!['\n'] + flat(lines.skip(y + 2)));
        lemma_flat_split(d, y);
        assert(d[y] == line + next);
        assert(flat(d) =~= flat(lines).remove(a.len() + x));
        assert forall|i: int, j: int| 0 <= i < d.len() && 0 <= j < d[i].len() implies #[trigger] d[i][j] != '\n' by {
            if i < y {
                assert(d[i] == lines[i]);
            } else if i == y {
                if j < line.len() {
                    assert(d[i][j] == line[j]);
                } else {
                    assert(d[i][j] == next[j - line.len()]);
                }
            } else {
                assert(d[i] == lines[i + 1]);
            }
        }
    }
}

proof fn lemma_delete_n_flat(s: Spot, n: nat)
    requires
        newline_free(s.0),
        inside(s.0, s.1, s.2),
        offset(s.0, s.1, s.2) + n <= flat(s.0).len() - 1,
    ensures
        delete_n(s, n).1 == s.1,
        delete_n(s, n).2 == s.2,
        newline_free(delete_n(s, n).0),
        inside(delete_n(s, n).0, s.1, s.2),
        delete_n(s, n).0.take(s.2) == s.0.take(s.2),
        flat(delete_n(s, n).0) == flat(s.0).take(offset(s.0, s.1, s.2)) + flat(s.0).skip(
            offset(s.0, s.1, s.2) + n,
        ),
    decreases n,
{
    let off = offset(s.0, s.1, s.2);
    let f = flat(s.0);
    if n == 0 {
        assert(f.take(off) + f.skip(off) =~= f);
    } else {
        lemma_delete_n_flat(s, (n - 1) as nat);
        let mid = delete_n(s, (n - 1) as nat);
        assert(offset(mid.0, mid.1, mid.2) == off);
        lemma_delete_one_flat(mid);
        assert(flat(mid.0).remove(off) =~= f.take(off) + f.skip(off + n));
    }
}

pub proof fn lemma_insert_all_ok_prefix(s: Spot, text: Seq<char>, i: int)
    requires
        insert_all_ok(s, text),
        0 <= i <= text.len(),
    ensures
        insert_all_ok(s, text.take(i)),
    decreases text.len(),
{
    if i < text.len() {
        assert(text.drop_last().take(i) == text.take(i));
        lemma_insert_all_ok_prefix(s, text.drop_last(), i);
    } else {
        assert(text.take(i) == text);
    }
}

pub proof fn lemma_all_applicable_prefix(s: Spot, ops: Seq<EditOperation>, i: int)
    requires
        all_applicable(s, ops),
        0 <= i <= ops.len(),
    ensures
        all_applicable(s, ops.take(i)),
    decreases ops.len(),
{
    if i < ops.len() {
        assert(ops.drop_last().take(i) == ops.take(i));
        lemma_all_applicable_prefix(s, ops.drop_last(), i);
    } else {
        assert(ops.take(i) == ops);
    }
}

pub proof fn lemma_all_undoable_suffix(s: Spot, ops: Seq<EditOperation>, i: int)
    requires
        all_undoable(s, ops),
        0 <= i <= ops.len(),
    ensures
        all_undoable(s, ops.skip(i)),
    decreases ops.len(),
{
    if i > 0 {
        assert(ops.skip(1).skip(i - 1) == ops.skip(i));
        lemma_all_undoable_suffix(s, ops.skip(1), i - 1);
    } else {
        assert(ops.skip(0) == ops);
    }
}

/// How many edits the undo history keeps when new edits are recorded.
pub const UNDO_LIMIT: usize = 1000;

/// A history that has grown past its limit loses its oldest entry.
pub open spec fn capped(stack: Seq<EditOperation>, limit: int) -> Seq<EditOperation> {
    if stack.len() > limit { stack.skip(1) } else { stack }
}

/// Whether an edit is the typing of one character, which is grouped with
/// the characters typed just before it.
pub open spec fn is_typing(op: EditOperation) -> bool {
    op is InsertChar
}

proof fn lemma_typed_then_deleted(p: Spot, text: Seq<char>)
    requires
        newline_free(p.0),
        inside(p.0, p.1, p.2),
    ensures
        delete_n((insert_all(p, text).0, p.1, p.2), text.len()) == p,
{
    let off = offset(p.0, p.1, p.2);
    let f = flat(p.0);
    lemma_flat_split(p.0, p.2);
    lemma_insert_all_flat(p, text);
    let r = insert_all(p, text);
    let q = (r.0, p.1, p.2);
    assert(offset(q.0, q.1, q.2) == off);
    lemma_delete_n_flat(q, text.len());
    let d = delete_n(q, text.len());
    let fr = flat(r.0);
    assert(fr.take(off) + fr.skip(off + text.len()) =~= f);
    lemma_flat_injective(d.0, p.0);
}

proof fn lemma_deleted_then_typed(p: Spot, text: Seq<char>)
    requires
        newline_free(p.0),
        inside(p.0, p.1, p.2),
        offset(p.0, p.1, p.2) + text.len() <= flat(p.0).len() - 1,
        flat(p.0).subrange(offset(p.0, p.1, p.2), offset(p.0, p.1, p.2) + text.len()) == text,
    ensures
        insert_all(delete_n(p, text.len()), text).0 == p.0,
        delete_n(p, text.len()).1 == p.1,
        delete_n(p, text.len()).2 == p.2,
        newline_free(delete_n(p, text.len()).0),
        inside(delete_n(p, text.len()).0, p.1, p.2),
{
    let off = offset(p.0, p.1, p.2);
    let f = flat(p.0);
    lemma_delete_n_flat(p, text.len());
    let d = delete_n(p, text.len());
    assert(offset(d.0, d.1, d.2) == off);
    lemma_insert_all_flat(d, text);
    let r = insert_all(d, text);
    let fd = flat(d.0);
    assert(fd.take(off) + text + fd.skip(off) =~= f);
    lemma_flat_injective(r.0, p.0);
}

/// Undoing a typed character takes it back, and redoing a deleted character
/// after undoing its deletion deletes it again, wherever the cursor stands
/// inside the lines.
pub proof fn a_typed_character_is_taken_back(s: Spot, position: (usize, usize), c: char)
    requires
        inside(s.0, position.0 as int, position.1 as int),
    ensures
        applied(
            applied(s, EditOperation::InsertChar { position, char: c }, false),
            EditOperation::InsertChar { position, char: c },
            true,
        ).0 == s.0,
        applied(
            applied(s, EditOperation::DeleteChar { position, char: c }, true),
            EditOperation::DeleteChar { position, char: c },
            false,
        ).0 == s.0,
{
    let (x, y) = (position.0 as int, position.1 as int);
    let line = s.0[y];
    assert(clamp(line, x) == x);
    assert(line.insert(x, c).remove(x) =~= line);
    assert(s.0.update(y, line.insert(x, c)).update(y, line.insert(x, c).remove(x)) =~= s.0);
}

/// Undoing the deletion of a character puts it back, and redoing a typed
/// character after undoing it types it again, when the character is the one
/// under the recorded position.
pub proof fn a_deleted_character_is_put_back(s: Spot, position: (usize, usize), c: char)
    requires
        0 <= position.1 < s.0.len(),
        position.0 < s.0[position.1 as int].len(),
        s.0[position.1 as int][position.0 as int] == c,
    ensures
        applied(
            applied(s, EditOperation::DeleteChar { position, char: c }, false),
            EditOperation::DeleteChar { position, char: c },
            true,
        ).0 == s.0,
        applied(
            applied(s, EditOperation::InsertChar { position, char: c }, true),
            EditOperation::InsertChar { position, char: c },
            false,
        ).0 == s.0,
{
    let (x, y) = (position.0 as int, position.1 as int);
    let line = s.0[y];
    assert(clamp(line.remove(x), x) == x);
    assert(line.remove(x).insert(x, c) =~= line);
    assert(s.0.update(y, line.remove(x)).update(y, line.remove(x).insert(x, c)) =~= s.0);
}

/// Undoing the joining of a line onto the end of the one above splits it off
/// again, when the recorded text is that line and the position is the end of
/// the line above.
pub proof fn a_joined_line_is_split_back(s: Spot, position: (usize, usize), merged_content: String)
    requires
        position.1 + 1 < s.0.len(),
        position.0 == s.0[position.1 as int].len(),
        merged_content@ == s.0[position.1 + 1],
    ensures
        applied(
            applied(s, EditOperation::DeleteNewline { position, merged_content }, false),
            EditOperation::DeleteNewline { position, merged_content },
            true,
        ).0 == s.0,
{
    let (x, y) = (position.0 as int, position.1 as int);
    let line = s.0[y];
    let joined = s.0.update(y, line + s.0[y + 1]).remove(y + 1);
    assert(clamp(joined[y], x) == x);
    assert(joined[y].take(x) =~= line);
    assert(joined.update(y, line).insert(y + 1, merged_content@) =~= s.0);
}

/// Redoing the joining of two lines after undoing it joins them again, when
/// the recorded text is what follows the position on its line.
pub proof fn a_split_line_is_joined_back(s: Spot, position: (usize, usize), merged_content: String)
    requires
        inside(s.0, position.0 as int, position.1 as int),
        merged_content@ == s.0[position.1 as int].skip(position.0 as int),
    ensures
        applied(
            applied(s, EditOperation::DeleteNewline { position, merged_content }, true),
            EditOperation::DeleteNewline { position, merged_content },
            false,
        ).0 == s.0,
{
    let (x, y) = (position.0 as int, position.1 as int);
    let line = s.0[y];
    assert(clamp(line, x) == x);
    let split = s.0.update(y, line.take(x)).insert(y + 1, merged_content@);
    assert(split[y] + split[y + 1] =~= line);
    assert(split.update(y, split[y] + split[y + 1]).remove(y + 1) =~= s.0);
}

/// Undoing typed text takes it back, and redoing deleted text after undoing
/// its deletion deletes it again: whatever the text holds, newlines
/// included, when the position is inside lines that hold no newline.
pub proof fn typed_text_is_taken_back(s: Spot, position: (usize, usize), text: String)
    requires
        newline_free(s.0),
        inside(s.0, position.0 as int, position.1 as int),
    ensures
        applied(
            applied(s, EditOperation::InsertText { position, text }, false),
            EditOperation::InsertText { position, text },
            true,
        ).0 == s.0,
        applied(
            applied(s, EditOperation::DeleteText { position, text }, true),
            EditOperation::DeleteText { position, text },
            false,
        ).0 == s.0,
{
    lemma_typed_then_deleted(at(s, position), text@);
}

/// Undoing deleted text puts it back, and redoing typed text after undoing
/// it types it again, when the text is what stands at the position in the
/// flat text and ends before the last line does.
pub proof fn deleted_text_is_put_back(s: Spot, position: (usize, usize), text: String)
    requires
        newline_free(s.0),
        inside(s.0, position.0 as int, position.1 as int),
        offset(s.0, position.0 as int, position.1 as int) + text@.len() <= flat(s.0).len() - 1,
        flat(s.0).subrange(
            offset(s.0, position.0 as int, position.1 as int),
            offset(s.0, position.0 as int, position.1 as int) + text@.len(),
        ) == text@,
    ensures
        applied(
            applied(s, EditOperation::DeleteText { position, text }, false),
            EditOperation::DeleteText { position, text },
            true,
        ).0 == s.0,
        applied(
            applied(s, EditOperation::InsertText { position, text }, true),
            EditOperation::InsertText { position, text },
            false,
        ).0 == s.0,
{
    let p = at(s, position);
    lemma_deleted_then_typed(p, text@);
    let d = delete_n(p, text@.len());
    assert(at(d, position) == d);
}

/// Undoing a replacement puts the replaced text back, when that text is what
/// stood at the position in the flat text and ended before the last line did.
pub proof fn replaced_text_is_put_back(
    s: Spot,
    position: (usize, usize),
    old_text: String,
    new_text: String,
)
    requires
        newline_free(s.0),
        inside(s.0, position.0 as int, position.1 as int),
        offset(s.0, position.0 as int, position.1 as int) + old_text@.len() <= flat(s.0).len() - 1,
        flat(s.0).subrange(
            offset(s.0, position.0 as int, position.1 as int),
            offset(s.0, position.0 as int, position.1 as int) + old_text@.len(),
        ) == old_text@,
    ensures
        applied(
            applied(s, EditOperation::ReplaceText { position, old_text, new_text }, false),
            EditOperation::ReplaceText { position, old_text, new_text },
            true,
        ).0 == s.0,
{
    let p = at(s, position);
    lemma_deleted_then_typed(p, old_text@);
    let d = delete_n(p, old_text@.len());
    assert(d == (d.0, p.1, p.2));
    lemma_typed_then_deleted(d, new_text@);
    let r = insert_all(d, new_text@);
    assert(at(r, position) == (r.0, p.1, p.2));
}

/// Whether the first position comes no later than the second.
pub open spec fn ordered(a: (usize, usize), b: (usize, usize)) -> bool {
    a.1 < b.1 || (a.1 == b.1 && a.0 <= b.0)
}

/// The two ends of a selection, the earlier first.
pub open spec fn normalized(a: (usize, usize), b: (usize, usize)) -> ((usize, usize), (usize, usize)) {
    if ordered(a, b) { (a, b) } else { (b, a) }
}

/// Orders the two ends of a selection, the earlier first.
pub fn normalize_selection(start: (usize, usize), end: (usize, usize)) -> (r: ((usize, usize), (usize, usize)))
    ensures
        r == normalized(start, end),
{
    if start.1 < end.1 || (start.1 == end.1 && start.0 <= end.0) {
        (start, end)
    } else {
        (end, start)
    }
}

/// The part of one line that a selection running over several lines takes,
/// with the newline that follows it on every line but the last.
pub open spec fn piece(lines: Seq<Seq<char>>, start: (usize, usize), end: (usize, usize), idx: int) -> Seq<char> {
    let line = lines[idx];
    let body = if idx == start.1 {
        line.skip(clamp(line, start.0 as int))
    } else if idx == end.1 {
        line.take(clamp(line, end.0 as int))
    } else {
        line
    };
    if idx < end.1 { body.push('\n') } else { body }
}

/// The parts of the first lines of a selection running over several lines.
pub open spec fn gathered(lines: Seq<Seq<char>>, start: (usize, usize), end: (usize, usize), k: int) -> Seq<char>
    decreases k,
{
    if k <= 0 {
        Seq::empty()
    } else {
        gathered(lines, start, end, k - 1) + piece(lines, start, end, start.1 + k - 1)
    }
}

/// The text between two ordered positions: on one line the characters
/// between the two columns; over several lines the rest of the first line,
/// the lines between, and the start of the last, joined by newlines, as far
/// as the lines go.
pub open spec fn selection_text(lines: Seq<Seq<char>>, start: (usize, usize), end: (usize, usize)) -> Seq<char> {
    if start.1 == end.1 {
        if start.1 < lines.len() {
            let line = lines[start.1 as int];
            let a = clamp(line, start.0 as int);
            let b = clamp(line, end.0 as int);
            line.subrange(a, if b < a { a } else { b })
        } else {
            Seq::empty()
        }
    } else {
        let stop = if end.1 + 1 < lines.len() { end.1 + 1 } else { lines.len() as int };
        gathered(lines, start, end, stop - start.1)
    }
}

/// Whether deleting between two ordered positions changes the lines: the
/// positions' lines must exist.
pub open spec fn removable(lines: Seq<Seq<char>>, start: (usize, usize), end: (usize, usize)) -> bool {
    if start.1 == end.1 {
        start.1 < lines.len()
    } else {
        start.1 < lines.len() && end.1 < lines.len()
    }
}

/// The lines once the text between two ordered positions is deleted: what
/// comes before the first position joined to what comes after the second.
pub open spec fn removed_selection(lines: Seq<Seq<char>>, start: (usize, usize), end: (usize, usize)) -> Seq<Seq<char>> {
    if !removable(lines, start, end) {
        lines
    } else if start.1 == end.1 {
        let line = lines[start.1 as int];
        let a = clamp(line, start.0 as int);
        let b = clamp(line, end.0 as int);
        lines.update(start.1 as int, line.take(a) + line.skip(if b < a { a } else { b }))
    } else {
        let first = lines[start.1 as int];
        let last = lines[end.1 as int];
        lines.take(start.1 as int) + seq![first.take(clamp(first, start.0 as int)) + last.skip(clamp(last, end.0 as int))]
            + lines.skip(end.1 + 1)
    }
}

proof fn lemma_flat_push(lines: Seq<Seq<char>>, line: Seq<char>)
    ensures
        flat(lines.push(line)) == flat(lines) + line + seq!['\n'],
{
    assert(lines.push(line) == lines + seq![line]);
    lemma_flat_append(lines, seq![line]);
    let rest = seq![line].skip(1);
    assert(rest.len() == 0);
    assert(flat(rest) == Seq::<char>::empty());
    assert(seq![line][0] == line);
    assert(flat(seq![line]) =~= line + seq!['\n']);
}

proof fn lemma_gathered(lines: Seq<Seq<char>>, start: (usize, usize), end: (usize, usize), k: int)
    requires
        start.1 < end.1 < lines.len(),
        start.0 <= lines[start.1 as int].len(),
        1 <= k <= end.1 - start.1,
    ensures
        gathered(lines, start, end, k) == lines[start.1 as int].skip(start.0 as int) + seq!['\n'] + flat(
            lines.subrange(start.1 + 1, start.1 + k),
        ),
    decreases k,
{
    let first = lines[start.1 as int];
    if k == 1 {
        assert(gathered(lines, start, end, 0) == Seq::<char>::empty());
        assert(lines.subrange(start.1 + 1, start.1 + 1).len() == 0);
        assert(flat(lines.subrange(start.1 + 1, start.1 + 1)) == Seq::<char>::empty());
        assert(clamp(first, start.0 as int) == start.0);
        assert(gathered(lines, start, end, 1) =~= first.skip(start.0 as int) + seq!['\n']);
    } else {
        lemma_gathered(lines, start, end, k - 1);
        let mid = lines.subrange(start.1 + 1, start.1 + k - 1);
        assert(lines.subrange(start.1 + 1, start.1 + k) == mid.push(lines[start.1 + k - 1]));
        lemma_flat_push(mid, lines[start.1 + k - 1]);
    }
}

#[verifier::spinoff_prover]
proof fn lemma_selection_flat_one_line(lines: Seq<Seq<char>>, start: (usize, usize), end: (usize, usize))
    requires
        inside(lines, start.0 as int, start.1 as int),
        inside(lines, end.0 as int, end.1 as int),
        ordered(start, end),
        start.1 == end.1,
    ensures
        offset(lines, start.0 as int, start.1 as int) <= offset(lines, end.0 as int, end.1 as int) < flat(lines).len(),
        selection_text(lines, start, end) == flat(lines).subrange(
            offset(lines, start.0 as int, start.1 as int),
            offset(lines, end.0 as int, end.1 as int),
        ),
        flat(removed_selection(lines, start, end)) == flat(lines).take(offset(lines, start.0 as int, start.1 as int))
            + flat(lines).skip(offset(lines, end.0 as int, end.1 as int)),
        inside(removed_selection(lines, start, end), start.0 as int, start.1 as int),
        offset(removed_selection(lines, start, end), start.0 as int, start.1 as int) == offset(
            lines,
            start.0 as int,
            start.1 as int,
        ),
{
    let (sx, sy) = (start.0 as int, start.1 as int);
    let (ex, ey) = (end.0 as int, end.1 as int);
    let f = flat(lines);
    let r = removed_selection(lines, start, end);
    lemma_flat_split(lines, ey);
    let line = lines[sy];
    assert(clamp(line, sx) == sx);
    assert(clamp(line, ex) == ex);
    let a = flat(lines.take(sy));
    assert(r == lines.update(sy, line.take(sx) + line.skip(ex)));
    assert(r.take(sy) =~= lines.take(sy));
    assert(r.skip(sy + 1) =~= lines.skip(sy + 1));
    lemma_flat_split(r, sy);
    assert(selection_text(lines, start, end) =~= f.subrange(a.len() + sx, a.len() + ex));
    assert(flat(r) =~= f.take(a.len() + sx) + f.skip(a.len() + ex));
}

#[verifier::spinoff_prover]
proof fn lemma_selection_flat_lines(lines: Seq<Seq<char>>, start: (usize, usize), end: (usize, usize))
    requires
        inside(lines, start.0 as int, start.1 as int),
        inside(lines, end.0 as int, end.1 as int),
        ordered(start, end),
        start.1 < end.1,
    ensures
        offset(lines, start.0 as int, start.1 as int) <= offset(lines, end.0 as int, end.1 as int) < flat(lines).len(),
        selection_text(lines, start, end) == flat(lines).subrange(
            offset(lines, start.0 as int, start.1 as int),
            offset(lines, end.0 as int, end.1 as int),
        ),
        flat(removed_selection(lines, start, end)) == flat(lines).take(offset(lines, start.0 as int, start.1 as int))
            + flat(lines).skip(offset(lines, end.0 as int, end.1 as int)),
        inside(removed_selection(lines, start, end), start.0 as int, start.1 as int),
        offset(removed_selection(lines, start, end), start.0 as int, start.1 as int) == offset(
            lines,
            start.0 as int,
            start.1 as int,
        ),
{
    let (sx, sy) = (start.0 as int, start.1 as int);
    let (ex, ey) = (end.0 as int, end.1 as int);
    let f = flat(lines);
    let r = removed_selection(lines, start, end);
    lemma_flat_split(lines, ey);
    let first = lines[sy];
    let last = lines[ey];
    assert(clamp(first, sx) == sx);
    assert(clamp(last, ex) == ex);
    let between = lines.subrange(sy + 1, ey);
    assert(lines.take(ey) =~= lines.take(sy) + seq![first] + between);
    lemma_flat_append(lines.take(sy) + seq![first], between);
    lemma_flat_push(lines.take(sy), first);
    assert(lines.take(sy) + seq![first] == lines.take(sy).push(first));
    let a = flat(lines.take(sy));
    assert(flat(lines.take(ey)) == a + first + seq!['\n'] + flat(between));
    lemma_gathered(lines, start, end, ey - sy);
    assert(selection_text(lines, start, end) == gathered(lines, start, end, ey - sy) + piece(lines, start, end, ey));
    assert(selection_text(lines, start, end) =~= f.subrange(a.len() + sx, flat(lines.take(ey)).len() + ex));
    let joined = first.take(sx) + last.skip(ex);
    assert(r == lines.take(sy) + seq![joined] + lines.skip(ey + 1));
    lemma_flat_append(lines.take(sy) + seq![joined], lines.skip(ey + 1));
    lemma_flat_push(lines.take(sy), joined);
    assert(lines.take(sy) + seq![joined] == lines.take(sy).push(joined));
    assert(flat(r) =~= f.take(a.len() + sx) + f.skip(flat(lines.take(ey)).len() + ex));
    assert(r.take(sy) =~= lines.take(sy));
}

proof fn lemma_removed_newline_free(lines: Seq<Seq<char>>, start: (usize, usize), end: (usize, usize))
    requires
        newline_free(lines),
        inside(lines, start.0 as int, start.1 as int),
        inside(lines, end.0 as int, end.1 as int),
        ordered(start, end),
    ensures
        newline_free(removed_selection(lines, start, end)),
{
    let (sx, sy) = (start.0 as int, start.1 as int);
    let (ex, ey) = (end.0 as int, end.1 as int);
    let r = removed_selection(lines, start, end);
    if sy == ey {
        let line = lines[sy];
        assert(clamp(line, sx) == sx);
        assert(clamp(line, ex) == ex);
        assert forall|i: int, j: int| 0 <= i < r.len() && 0 <= j < r[i].len() implies #[trigger] r[i][j] != '\n' by {
            if i != sy {
                assert(r[i] == lines[i]);
            } else if j < sx {
                assert(r[i][j] == line[j]);
            } else {
                assert(r[i][j] == line[j - sx + ex]);
            }
        }
    } else {
        let first = lines[sy];
        let last = lines[ey];
        assert(clamp(first, sx) == sx);
        assert(clamp(last, ex) == ex);
        let joined = first.take(sx) + last.skip(ex);
        assert(r == lines.take(sy) + seq![joined] + lines.skip(ey + 1));
        assert forall|i: int, j: int| 0 <= i < r.len() && 0 <= j < r[i].len() implies #[trigger] r[i][j] != '\n' by {
            if i < sy {
                assert(r[i] == lines[i]);
            } else if i == sy {
                if j < sx {
                    assert(r[i][j] == first[j]);
                } else {
                    assert(r[i][j] == last[j - sx + ex]);
                }
            } else {
                assert(r[i] == lines[i - sy + ey]);
            }
        }
    }
}

/// Undoing the deletion of a selection puts the selected text back: the
/// lines once the text between two ordered positions inside them is deleted,
/// with that text typed back in where the selection began, are the lines
/// before the deletion, when no line holds a newline.
pub proof fn a_deleted_selection_is_one_undo_away(
    lines: Seq<Seq<char>>,
    start: (usize, usize),
    end: (usize, usize),
    text: String,
)
    requires
        newline_free(lines),
        inside(lines, start.0 as int, start.1 as int),
        inside(lines, end.0 as int, end.1 as int),
        ordered(start, end),
        text@ == selection_text(lines, start, end),
    ensures
        applied(
            (removed_selection(lines, start, end), start.0 as int, start.1 as int),
            EditOperation::DeleteText { position: start, text },
            true,
        ).0 == lines,
{
    if start.1 == end.1 {
        lemma_selection_flat_one_line(lines, start, end);
    } else {
        lemma_selection_flat_lines(lines, start, end);
    }
    lemma_removed_newline_free(lines, start, end);
    let r = removed_selection(lines, start, end);
    let p = (r, start.0 as int, start.1 as int);
    lemma_flat_split(lines, start.1 as int);
    lemma_insert_all_flat(p, text@);
    let f = flat(lines);
    let fr = flat(r);
    let os = offset(lines, start.0 as int, start.1 as int);
    let oe = offset(lines, end.0 as int, end.1 as int);
    assert(fr.take(os) + text@ + fr.skip(os) =~= f);
    lemma_flat_injective(insert_all(p, text@).0, lines);
}

/// The newest entry of a capped history is the one just pushed.
proof fn lemma_capped_last(history: Seq<EditOperation>, op: EditOperation, limit: int)
    requires
        limit >= 1,
    ensures
        capped(history.push(op), limit).last() == op,
        capped(history.push(op), limit).len() > 0,
{
    let pushed = history.push(op);
    if pushed.len() > limit {
        assert(pushed.skip(1).last() == pushed.last());
    }
}

/// The entry under the newest one in a capped history is the one that was
/// newest before the push.
proof fn lemma_capped_second_last(history: Seq<EditOperation>, op: EditOperation, limit: int)
    requires
        limit >= 2,
        history.len() >= 1,
    ensures
        capped(history.push(op), limit).len() >= 2,
        capped(history.push(op), limit)[capped(history.push(op), limit).len() - 2] == history.last(),
{
    let pushed = history.push(op);
    if pushed.len() > limit {
        assert(pushed.skip(1).len() == pushed.len() - 1);
        assert(pushed.skip(1)[pushed.skip(1).len() - 2] == pushed[pushed.len() - 2]);
    }
}

impl Tab {
    /// The undo history once the characters typed last are closed into one
    /// entry.
    pub open spec fn flushed_undo(&self) -> Seq<EditOperation> {
        if self.char_insert_group@.len() > 0 {
            self.undo_stack@.push(EditOperation::BatchOperation { operations: self.char_insert_group })
        } else {
            self.undo_stack@
        }
    }

    /// Whether this tab is what deleting the selection of `before` from the
    /// given lines, with the cursor at `(x, y)`, leaves: the text between the
    /// ends of the selection gone, the cursor where it began, the selection
    /// cleared, and the deletion recorded.
    pub open spec fn took_selection(&self, lines: Seq<Seq<char>>, x: int, y: int, before: &Tab) -> bool {
        let (start, end) = before.selection_bounds();
        let last = self.undo_stack@.last();
        &&& self.spot().0 == removed_selection(lines, start, end)
        &&& removable(lines, start, end) ==> self.cursor_x == start.0 && self.cursor_y == start.1
        &&& !removable(lines, start, end) ==> self.cursor_x == x && self.cursor_y == y
        &&& self.selection_start is None
        &&& self.selection_end is None
        &&& !self.selection_mode
        &&& self.modified
        &&& self.char_insert_group@.len() == 0
        &&& self.redo_stack@.len() == 0
        &&& self.undo_stack@ == capped(before.flushed_undo().push(last), UNDO_LIMIT as int)
        &&& (last matches EditOperation::DeleteText { position, text } && position == start && text@
            == selection_text(lines, start, end))
    }

    /// Whether this tab is what wrapping the selection of `before`, over the
    /// given lines, in an opening and a closing character leaves: the span
    /// replaced by its text between the two, the selection kept around it,
    /// and the replacement recorded.
    pub open spec fn surrounded(&self, lines: Seq<Seq<char>>, before: &Tab, opening: char, closing: char) -> bool {
        let (start, end) = before.selection_bounds();
        let wrapped = seq![opening] + span_text(lines, start, end) + seq![closing];
        let new_end = if start.1 == end.1 { (end.0 + 2, end.1) } else { (end.0 + 1, end.1) };
        let last = self.undo_stack@.last();
        &&& self.spot() == (span_replaced(lines, start, end, wrapped).0, new_end.0 as int, new_end.1 as int)
        &&& self.selection_start == Some(start)
        &&& self.selection_end == Some((new_end.0 as usize, new_end.1 as usize))
        &&& self.selection_mode
        &&& recorded_over(before, self)
        &&& (last matches EditOperation::ReplaceText { position, old_text, new_text } && position == start
            && old_text@ == span_text(lines, start, end) && new_text@ == wrapped)
    }

    /// Whether the tab selects some text: both ends set, and apart.
    pub open spec fn selecting(&self) -> bool {
        &&& self.selection_start is Some
        &&& self.selection_end is Some
        &&& self.selection_start != self.selection_end
    }

    /// The ends of the selection, the earlier first, or the start of the file
    /// twice when there is no selection.
    pub open spec fn selection_bounds(&self) -> ((usize, usize), (usize, usize)) {
        match (self.selection_start, self.selection_end) {
            (Some(a), Some(b)) => normalized(a, b),
            _ => ((0, 0), (0, 0)),
        }
    }
}

impl Tab {
    /// The lines and the cursor.
    pub open spec fn spot(&self) -> Spot {
        (self.content@.map_values(|l: Vec<char>| l@), self.cursor_x as int, self.cursor_y as int)
    }

    /// Whether only the lines and the cursor differ between two tabs.
    pub open spec fn only_text_differs(&self, other: &Tab) -> bool {
        &&& self.modified == other.modified
        &&& self.undo_stack == other.undo_stack
        &&& self.redo_stack == other.redo_stack
        &&& self.char_insert_group == other.char_insert_group
        &&& self.selection_start == other.selection_start
        &&& self.selection_end == other.selection_end
        &&& self.selection_mode == other.selection_mode
    }

    /// Whether two tabs select the same text.
    pub open spec fn same_selection(&self, other: &Tab) -> bool {
        &&& self.selection_start == other.selection_start
        &&& self.selection_end == other.selection_end
        &&& self.selection_mode == other.selection_mode
    }

    /// Types one character at the cursor.
    fn insert_one_char(&mut self, c: char)
        requires
            insert_one_ok(old(self).spot(), c),
        ensures
            final(self).spot() == insert_one(old(self).spot(), c),
            final(self).only_text_differs(old(self)),
    {
        let ghost s = self.spot();
        let y = self.cursor_y;
        let x = self.cursor_x;
        if c == '\n' {
            let mut line: Vec<char> = Vec::new();
            self.content.set_and_swap(y, &mut line);
            let k = if x < line.len() { x } else { line.len() };
            let rest = line.split_off(k);
            self.content.set(y, line);
            self.content.insert(y + 1, rest);
            self.cursor_y = y + 1;
            self.cursor_x = 0;
            proof {
                assert(self.spot().0 =~= insert_one(s, c).0);
            }
        } else {
            if y >= self.content.len() {
                self.content.push(Vec::new());
            }
            let mut line: Vec<char> = Vec::new();
            self.content.set_and_swap(y, &mut line);
            let ghost before = line@;
            while line.len() < x
                invariant
                    before.len() <= x ==> line@ == before + spaces(line@.len() - before.len()),
                    before.len() > x ==> line@ == before,
                    line@.len() <= x || line@ == before,
                decreases x - line@.len(),
            {
                line.push(' ');
                proof {
                    assert(line@ =~= before + spaces(line@.len() - before.len()));
                }
            }
            proof {
                if before.len() <= x {
                    assert(line@ =~= before + spaces(x - before.len()));
                }
            }
            line.insert(x, c);
            self.content.set(y, line);
            self.cursor_x = x + 1;
            proof {
                assert(self.spot().0 =~= insert_one(s, c).0);
            }
        }
    }

    /// Types a text at the cursor, character by character.
    pub fn insert_text_at_cursor(&mut self, text: &str)
        requires
            insert_all_ok(old(self).spot(), text@),
        ensures
            final(self).spot() == insert_all(old(self).spot(), text@),
            final(self).only_text_differs(old(self)),
    {
        let ghost s = self.spot();
        let ghost start = *self;
        let chars = chars_of(text);
        let n = chars.len();
        let mut i: usize = 0;
        while i < n
            invariant
                n == chars@.len(),
                chars@ == text@,
                i <= n,
                insert_all_ok(s, text@),
                self.spot() == insert_all(s, chars@.take(i as int)),
                self.only_text_differs(&start),
            decreases n - i,
        {
            proof {
                lemma_insert_all_ok_prefix(s, chars@, i + 1);
                assert(chars@.take(i + 1).drop_last() == chars@.take(i as int));
            }
            self.insert_one_char(chars[i]);
            i = i + 1;
        }
        proof {
            assert(chars@.take(n as int) == text@);
        }
    }

    /// Deletes the character under the cursor.
    fn delete_one_char(&mut self)
        ensures
            final(self).spot() == delete_one(old(self).spot()),
            final(self).only_text_differs(old(self)),
    {
        let ghost s = self.spot();
        let y = self.cursor_y;
        let x = self.cursor_x;
        if y >= self.content.len() {
            return;
        }
        let width = self.content[y].len();
        if x < width {
            let mut line: Vec<char> = Vec::new();
            self.content.set_and_swap(y, &mut line);
            line.remove(x);
            self.content.set(y, line);
            proof {
                assert(self.spot().0 =~= delete_one(s).0);
            }
        } else if y + 1 < self.content.len() {
            let mut next = self.content.remove(y + 1);
            let mut line: Vec<char> = Vec::new();
            self.content.set_and_swap(y, &mut line);
            line.append(&mut next);
            self.content.set(y, line);
            proof {
                assert(self.spot().0 =~= delete_one(s).0);
            }
        }
    }

    /// Deletes as many characters as the text has, starting at the cursor and
    /// working forward, so that undo and redo take back exactly what an edit
    /// put there.
    pub fn delete_text_at_position(&mut self, text: &str)
        ensures
            final(self).spot() == delete_n(old(self).spot(), text@.len()),
            final(self).only_text_differs(old(self)),
    {
        let ghost s = self.spot();
        let ghost start = *self;
        let chars = chars_of(text);
        let n = chars.len();
        let mut i: usize = 0;
        while i < n
            invariant
                n == text@.len(),
                i <= n,
                self.spot() == delete_n(s, i as nat),
                self.only_text_differs(&start),
            decreases n - i,
        {
            self.delete_one_char();
            i = i + 1;
        }
    }

    /// Puts a character back at the cursor and steps past it.
    fn put_char(&mut self, c: char)
        requires
            old(self).cursor_y < old(self).content.len() ==> old(self).cursor_x < usize::MAX,
        ensures
            final(self).spot() == put_at(old(self).spot(), c),
            final(self).only_text_differs(old(self)),
    {
        let ghost s = self.spot();
        let y = self.cursor_y;
        let x = self.cursor_x;
        if y < self.content.len() {
            let mut line: Vec<char> = Vec::new();
            self.content.set_and_swap(y, &mut line);
            let k = if x < line.len() { x } else { line.len() };
            line.insert(k, c);
            self.content.set(y, line);
            self.cursor_x = x + 1;
            proof {
                assert(self.spot().0 =~= put_at(s, c).0);
            }
        }
    }

    /// Takes the character under the cursor out of its line.
    fn remove_char(&mut self)
        ensures
            final(self).spot() == remove_at(old(self).spot()),
            final(self).only_text_differs(old(self)),
    {
        let ghost s = self.spot();
        let y = self.cursor_y;
        let x = self.cursor_x;
        if y < self.content.len() && x < self.content[y].len() {
            let mut line: Vec<char> = Vec::new();
            self.content.set_and_swap(y, &mut line);
            line.remove(x);
            self.content.set(y, line);
            proof {
                assert(self.spot().0 =~= remove_at(s).0);
            }
        }
    }

    /// Splits the cursor's line at the cursor, with the given text below.
    fn split_line(&mut self, below: &str)
        ensures
            final(self).spot() == split_at(old(self).spot(), below@),
            final(self).only_text_differs(old(self)),
    {
        let ghost s = self.spot();
        let y = self.cursor_y;
        let x = self.cursor_x;
        if y < self.content.len() {
            let mut line: Vec<char> = Vec::new();
            self.content.set_and_swap(y, &mut line);
            let k = if x < line.len() { x } else { line.len() };
            line.truncate(k);
            self.content.set(y, line);
            self.content.insert(y + 1, chars_of(below));
            self.cursor_y = y + 1;
            self.cursor_x = 0;
            proof {
                assert(self.spot().0 =~= split_at(s, below@).0);
            }
        }
    }

    /// Pulls the line below the cursor's line up onto its end.
    fn join_line(&mut self)
        ensures
            final(self).spot() == join_at(old(self).spot()),
            final(self).only_text_differs(old(self)),
    {
        let ghost s = self.spot();
        let y = self.cursor_y;
        if y < self.content.len() && y + 1 < self.content.len() {
            let mut next = self.content.remove(y + 1);
            let mut line: Vec<char> = Vec::new();
            self.content.set_and_swap(y, &mut line);
            line.append(&mut next);
            self.content.set(y, line);
            proof {
                assert(self.spot().0 =~= join_at(s).0);
            }
        }
    }

    /// Applies an edit: forward to redo it, backward to undo it. The cursor
    /// is first put where the edit began.
    pub fn apply_operation(&mut self, operation: &EditOperation, reverse: bool)
        requires
            applicable(old(self).spot(), *operation, reverse),
        ensures
            final(self).spot() == applied(old(self).spot(), *operation, reverse),
            final(self).only_text_differs(old(self)),
        decreases operation,
    {
        match operation {
            EditOperation::BatchOperation { operations } => {
                let ghost s = self.spot();
                let ghost start = *self;
                let n = operations.len();
                if reverse {
                    let mut j: usize = n;
                    while j > 0
                        invariant
                            n == operations@.len(),
                            j <= n,
                            all_undoable(s, operations@),
                            self.spot() == undone_all(s, operations@.skip(j as int)),
                            self.only_text_differs(&start),
                            *operation == (EditOperation::BatchOperation { operations: *operations }),
                        decreases j,
                    {
                        proof {
                            lemma_all_undoable_suffix(s, operations@, j - 1);
                            assert(operations@.skip(j - 1).skip(1) == operations@.skip(j as int));
                            assert(operations@.skip(j - 1)[0] == operations@[j - 1]);
                            assert(decreases_to!(*operation => (*operation)->operations));
                            assert(decreases_to!(*operations => operations@));
                            assert(decreases_to!(operations@ => operations@[j - 1]));
                        }
                        self.apply_operation(&operations[j - 1], true);
                        j = j - 1;
                    }
                    proof {
                        assert(operations@.skip(0) == operations@);
                    }
                } else {
                    let mut i: usize = 0;
                    while i < n
                        invariant
                            n == operations@.len(),
                            i <= n,
                            all_applicable(s, operations@),
                            self.spot() == applied_all(s, operations@.take(i as int)),
                            self.only_text_differs(&start),
                            *operation == (EditOperation::BatchOperation { operations: *operations }),
                        decreases n - i,
                    {
                        proof {
                            lemma_all_applicable_prefix(s, operations@, i + 1);
                            assert(operations@.take(i + 1).drop_last() == operations@.take(i as int));
                            assert(decreases_to!(*operation => (*operation)->operations));
                            assert(decreases_to!(*operations => operations@));
                            assert(decreases_to!(operations@ => operations@[i as int]));
                        }
                        self.apply_operation(&operations[i], false);
                        i = i + 1;
                    }
                    proof {
                        assert(operations@.take(n as int) == operations@);
                    }
                }
            },
            EditOperation::InsertChar { position, char } => {
                self.cursor_x = position.0;
                self.cursor_y = position.1;
                if reverse { self.remove_char(); } else { self.put_char(*char); }
            },
            EditOperation::DeleteChar { position, char } => {
                self.cursor_x = position.0;
                self.cursor_y = position.1;
                if reverse { self.put_char(*char); } else { self.remove_char(); }
            },
            EditOperation::DeleteNewline { position, merged_content } => {
                self.cursor_x = position.0;
                self.cursor_y = position.1;
                if reverse { self.split_line(merged_content.as_str()); } else { self.join_line(); }
            },
            EditOperation::InsertText { position, text } => {
                self.cursor_x = position.0;
                self.cursor_y = position.1;
                if reverse {
                    self.delete_text_at_position(text.as_str());
                } else {
                    self.insert_text_at_cursor(text.as_str());
                }
            },
            EditOperation::DeleteText { position, text } => {
                self.cursor_x = position.0;
                self.cursor_y = position.1;
                if reverse {
                    self.insert_text_at_cursor(text.as_str());
                } else {
                    self.delete_text_at_position(text.as_str());
                }
            },
            EditOperation::ReplaceText { position, old_text, new_text } => {
                self.cursor_x = position.0;
                self.cursor_y = position.1;
                if reverse {
                    self.delete_text_at_position(new_text.as_str());
                    self.insert_text_at_cursor(old_text.as_str());
                } else {
                    self.delete_text_at_position(old_text.as_str());
                    self.insert_text_at_cursor(new_text.as_str());
                }
            },
        }
    }

    /// An empty tab: one empty line, the cursor at its start, no history.
    pub fn new() -> (t: Tab)
        ensures
            t.spot() == (seq![Seq::<char>::empty()], 0int, 0int),
            !t.modified,
            t.undo_stack@.len() == 0,
            t.redo_stack@.len() == 0,
            t.char_insert_group@.len() == 0,
            t.selection_start is None,
            t.selection_end is None,
            !t.selection_mode,
    {
        let t = Tab {
            content: vec![Vec::new()],
            cursor_x: 0,
            cursor_y: 0,
            modified: false,
            undo_stack: Vec::new(),
            redo_stack: Vec::new(),
            char_insert_group: Vec::new(),
            selection_start: None,
            selection_end: None,
            selection_mode: false,
        };
        proof {
            assert(t.spot().0 =~= seq![Seq::<char>::empty()]);
        }
        t
    }

    /// Puts the cursor back inside the file: a tab with no lines gets an
    /// empty one, and a cursor below the last line moves up to it.
    pub fn settle_cursor(&mut self)
        ensures
            final(self).only_text_differs(old(self)),
            final(self).cursor_x == old(self).cursor_x,
            final(self).spot().0 == settled_lines(old(self).spot().0),
            final(self).cursor_y == settled_row(old(self).spot().0, old(self).cursor_y as int),
            final(self).cursor_y < final(self).content@.len(),
    {
        if self.content.len() == 0 {
            self.content.push(Vec::new());
            proof {
                assert(self.spot().0 =~= seq![Seq::<char>::empty()]);
            }
        }
        if self.cursor_y >= self.content.len() {
            self.cursor_y = self.content.len() - 1;
        }
    }

    /// Closes the characters typed last into one entry of the undo history.
    pub fn flush_char_group(&mut self)
        ensures
            final(self).undo_stack@ == old(self).flushed_undo(),
            final(self).char_insert_group@.len() == 0,
            final(self).redo_stack@ == old(self).redo_stack@,
            final(self).modified == old(self).modified,
            final(self).spot() == old(self).spot(),
            final(self).same_selection(old(self)),
    {
        if self.char_insert_group.len() > 0 {
            let mut group: Vec<EditOperation> = Vec::new();
            std::mem::swap(&mut group, &mut self.char_insert_group);
            self.undo_stack.push(EditOperation::BatchOperation { operations: group });
        }
    }

    /// Records an edit that was just made. A typed character joins the group
    /// of characters typed before it when `grouped` says it came soon enough
    /// after them, and starts a new group otherwise; any other edit closes the
    /// group, clears what could be redone, and goes on the undo history,
    /// which keeps at most `UNDO_LIMIT` entries.
    pub fn record_operation(&mut self, op: EditOperation, grouped: bool)
        ensures
            final(self).spot() == old(self).spot(),
            final(self).same_selection(old(self)),
            final(self).modified == old(self).modified,
            is_typing(op) && grouped && old(self).char_insert_group@.len() > 0 ==> {
                &&& final(self).char_insert_group@ == old(self).char_insert_group@.push(op)
                &&& final(self).undo_stack@ == old(self).undo_stack@
                &&& final(self).redo_stack@ == old(self).redo_stack@
            },
            is_typing(op) && !(grouped && old(self).char_insert_group@.len() > 0) ==> {
                &&& final(self).char_insert_group@ == seq![op]
                &&& final(self).undo_stack@ == old(self).flushed_undo()
                &&& final(self).redo_stack@ == old(self).redo_stack@
            },
            !is_typing(op) ==> {
                &&& final(self).char_insert_group@.len() == 0
                &&& final(self).undo_stack@ == capped(old(self).flushed_undo().push(op), UNDO_LIMIT as int)
                &&& final(self).redo_stack@.len() == 0
            },
    {
        let typing = match op {
            EditOperation::InsertChar { .. } => true,
            _ => false,
        };
        if typing {
            if grouped && self.char_insert_group.len() > 0 {
                self.char_insert_group.push(op);
            } else {
                self.flush_char_group();
                self.char_insert_group.push(op);
            }
            return;
        }
        self.flush_char_group();
        self.redo_stack.clear();
        self.undo_stack.push(op);
        if self.undo_stack.len() > UNDO_LIMIT {
            self.undo_stack.remove(0);
            proof {
                assert(self.undo_stack@ =~= capped(old(self).flushed_undo().push(op), UNDO_LIMIT as int));
            }
        }
    }

    /// Takes back the last edit: closes the group of characters typed last,
    /// applies the last entry of the undo history backward, and moves it to
    /// the redo history, which keeps at most `max_undo` entries. Says whether
    /// there was anything to undo.
    pub fn undo(&mut self, max_undo: usize) -> (r: bool)
        requires
            old(self).flushed_undo().len() > 0 ==> applicable(
                old(self).spot(),
                old(self).flushed_undo().last(),
                true,
            ),
        ensures
            r == (old(self).flushed_undo().len() > 0),
            final(self).char_insert_group@.len() == 0,
            final(self).same_selection(old(self)),
            r ==> {
                &&& final(self).undo_stack@ == old(self).flushed_undo().drop_last()
                &&& final(self).spot() == applied(old(self).spot(), old(self).flushed_undo().last(), true)
                &&& final(self).redo_stack@ == capped(
                    old(self).redo_stack@.push(old(self).flushed_undo().last()),
                    max_undo as int,
                )
                &&& final(self).modified
            },
            !r ==> {
                &&& final(self).undo_stack@ == old(self).undo_stack@
                &&& final(self).spot() == old(self).spot()
                &&& final(self).redo_stack@ == old(self).redo_stack@
                &&& final(self).modified == old(self).modified
            },
    {
        self.flush_char_group();
        match self.undo_stack.pop() {
            Some(operation) => {
                self.apply_operation(&operation, true);
                self.redo_stack.push(operation);
                if self.redo_stack.len() > max_undo {
                    self.redo_stack.remove(0);
                }
                proof {
                    assert(self.redo_stack@ =~= capped(
                        old(self).redo_stack@.push(old(self).flushed_undo().last()),
                        max_undo as int,
                    ));
                }
                self.modified = true;
                true
            },
            None => false,
        }
    }

    /// Applies again the last edit that was undone, and moves it back to the
    /// undo history. Says whether there was anything to redo.
    pub fn redo(&mut self) -> (r: bool)
        requires
            old(self).redo_stack@.len() > 0 ==> applicable(
                old(self).spot(),
                old(self).redo_stack@.last(),
                false,
            ),
        ensures
            r == (old(self).redo_stack@.len() > 0),
            final(self).char_insert_group@ == old(self).char_insert_group@,
            final(self).same_selection(old(self)),
            r ==> {
                &&& final(self).redo_stack@ == old(self).redo_stack@.drop_last()
                &&& final(self).spot() == applied(old(self).spot(), old(self).redo_stack@.last(), false)
                &&& final(self).undo_stack@ == old(self).undo_stack@.push(old(self).redo_stack@.last())
                &&& final(self).modified
            },
            !r ==> {
                &&& final(self).spot() == old(self).spot()
                &&& final(self).undo_stack@ == old(self).undo_stack@
                &&& final(self).redo_stack@ == old(self).redo_stack@
                &&& final(self).modified == old(self).modified
            },
    {
        match self.redo_stack.pop() {
            Some(operation) => {
                self.apply_operation(&operation, false);
                self.undo_stack.push(operation);
                self.modified = true;
                true
            },
            None => false,
        }
    }

    /// Whether the tab selects some text.
    pub fn has_selection(&self) -> (r: bool)
        ensures
            r == self.selecting(),
    {
        match (self.selection_start, self.selection_end) {
            (Some(a), Some(b)) => a.0 != b.0 || a.1 != b.1,
            _ => false,
        }
    }

    /// The ends of the selection, the earlier first.
    pub fn get_normalized_selection(&self) -> (r: ((usize, usize), (usize, usize)))
        ensures
            r == self.selection_bounds(),
    {
        match (self.selection_start, self.selection_end) {
            (Some(a), Some(b)) => normalize_selection(a, b),
            _ => ((0, 0), (0, 0)),
        }
    }

    /// The selected text, or nothing when nothing is selected.
    pub fn get_selected_text(&self) -> (r: String)
        ensures
            r@ == if self.selecting() {
                selection_text(self.spot().0, self.selection_bounds().0, self.selection_bounds().1)
            } else {
                Seq::<char>::empty()
            },
    {
        if !self.has_selection() {
            return String::new();
        }
        let (start, end) = self.get_normalized_selection();
        self.selected_between(start, end)
    }

    /// The text between two ordered positions.
    fn selected_between(&self, start: (usize, usize), end: (usize, usize)) -> (r: String)
        requires
            ordered(start, end),
        ensures
            r@ == selection_text(self.spot().0, start, end),
    {
        let mut result = String::new();
        let ghost lines = self.spot().0;
        if start.1 == end.1 {
            if start.1 < self.content.len() {
                let line = &self.content[start.1];
                let a = if start.0 < line.len() { start.0 } else { line.len() };
                let b0 = if end.0 < line.len() { end.0 } else { line.len() };
                let b = if b0 < a { a } else { b0 };
                let mut i = a;
                while i < b
                    invariant
                        a <= i <= b <= line@.len(),
                        result@ == line@.subrange(a as int, i as int),
                    decreases b - i,
                {
                    push_char(&mut result, line[i]);
                    proof {
                        assert(result@ =~= line@.subrange(a as int, i + 1));
                    }
                    i = i + 1;
                }
            }
            return result;
        }
        let mut idx = start.1;
        while idx <= end.1 && idx < self.content.len()
            invariant
                start.1 < end.1,
                start.1 <= idx,
                idx <= end.1 + 1,
                idx > start.1 ==> idx <= lines.len(),
                lines == self.spot().0,
                result@ == gathered(lines, start, end, idx - start.1),
            decreases end.1 + 1 - idx,
        {
            let line = &self.content[idx];
            let from = if idx == start.1 {
                if start.0 < line.len() { start.0 } else { line.len() }
            } else {
                0
            };
            let to = if idx == start.1 {
                line.len()
            } else if idx == end.1 {
                if end.0 < line.len() { end.0 } else { line.len() }
            } else {
                line.len()
            };
            let ghost before = result@;
            let mut i = from;
            while i < to
                invariant
                    from <= i <= to <= line@.len(),
                    result@ == before + line@.subrange(from as int, i as int),
                decreases to - i,
            {
                push_char(&mut result, line[i]);
                proof {
                    assert(result@ =~= before + line@.subrange(from as int, i + 1));
                }
                i = i + 1;
            }
            if idx < end.1 {
                push_char(&mut result, '\n');
            }
            proof {
                assert(lines[idx as int] == line@);
                let p = piece(lines, start, end, idx as int);
                assert(result@ =~= before + p);
                assert(start.1 + (idx + 1 - start.1) - 1 == idx);
            }
            idx = idx + 1;
        }
        proof {
            let stop = if end.1 + 1 < lines.len() { end.1 + 1 } else { lines.len() as int };
            assert(idx == stop || (idx == start.1 && stop <= start.1));
            if stop <= start.1 {
                assert(gathered(lines, start, end, stop - start.1) == Seq::<char>::empty());
            }
        }
        result
    }

    /// Deletes the text between two ordered positions, as far as their lines
    /// exist, and puts the cursor where it began; nothing else changes.
    fn cut_between(&mut self, start: (usize, usize), end: (usize, usize))
        requires
            ordered(start, end),
        ensures
            final(self).spot().0 == removed_selection(old(self).spot().0, start, end),
            removable(old(self).spot().0, start, end) ==> final(self).cursor_x == start.0 && final(self).cursor_y
                == start.1,
            !removable(old(self).spot().0, start, end) ==> final(self).cursor_x == old(self).cursor_x
                && final(self).cursor_y == old(self).cursor_y,
            final(self).only_text_differs(old(self)),
    {
        let ghost lines = self.spot().0;
        if start.1 == end.1 {
            if start.1 < self.content.len() {
                let y = start.1;
                let mut line: Vec<char> = Vec::new();
                self.content.set_and_swap(y, &mut line);
                let a = if start.0 < line.len() { start.0 } else { line.len() };
                let b0 = if end.0 < line.len() { end.0 } else { line.len() };
                let b = if b0 < a { a } else { b0 };
                let ghost whole = line@;
                let mut tail = line.split_off(b);
                line.truncate(a);
                line.append(&mut tail);
                proof {
                    assert(line@ =~= whole.take(a as int) + whole.skip(b as int));
                }
                self.content.set(y, line);
                self.cursor_x = start.0;
                self.cursor_y = start.1;
                proof {
                    assert(self.spot().0 =~= removed_selection(lines, start, end));
                }
            }
        } else if start.1 < self.content.len() && end.1 < self.content.len() {
            let sy = start.1;
            let ey = end.1;
            let ghost vecs = self.content@;
            let mut first: Vec<char> = Vec::new();
            self.content.set_and_swap(sy, &mut first);
            let mut last: Vec<char> = Vec::new();
            self.content.set_and_swap(ey, &mut last);
            let a = if start.0 < first.len() { start.0 } else { first.len() };
            let b = if end.0 < last.len() { end.0 } else { last.len() };
            first.truncate(a);
            let mut tail = last.split_off(b);
            let ghost middle = self.content@;
            let ghost kept = *self;
            let mut k: usize = 0;
            while k < ey - sy
                invariant
                    self.only_text_differs(&kept),
                    kept.only_text_differs(old(self)),
                    sy < ey < middle.len(),
                    k <= ey - sy,
                    self.content@ == middle.take(sy + 1) + middle.skip(sy + 1 + k),
                decreases ey - sy - k,
            {
                proof {
                    assert(sy + 1 < self.content@.len());
                }
                self.content.remove(sy + 1);
                proof {
                    assert(self.content@ =~= middle.take(sy + 1) + middle.skip(sy + 1 + k + 1));
                }
                k = k + 1;
            }
            first.append(&mut tail);
            self.content.set(sy, first);
            self.cursor_x = start.0;
            self.cursor_y = start.1;
            proof {
                assert(self.content@ =~= vecs.take(sy as int) + seq![first] + vecs.skip(ey + 1));
                assert(self.spot().0 =~= removed_selection(lines, start, end));
            }
        }
    }

    /// Deletes the selected text and records the deletion, so that one undo
    /// puts it back. The cursor goes to where the selection began and the
    /// selection is cleared. Nothing happens when nothing is selected.
    pub fn delete_selected_text(&mut self)
        ensures
            !old(self).selecting() ==> {
                &&& final(self).spot() == old(self).spot()
                &&& final(self).only_text_differs(old(self))
            },
            old(self).selecting() ==> final(self).took_selection(
                old(self).spot().0,
                old(self).cursor_x as int,
                old(self).cursor_y as int,
                old(self),
            ),
            old(self).selecting() && newline_free(old(self).spot().0) && inside(
                old(self).spot().0,
                old(self).selection_bounds().0.0 as int,
                old(self).selection_bounds().0.1 as int,
            ) && inside(
                old(self).spot().0,
                old(self).selection_bounds().1.0 as int,
                old(self).selection_bounds().1.1 as int,
            ) ==> applied(final(self).spot(), final(self).undo_stack@.last(), true).0 == old(self).spot().0,
    {
        if !self.has_selection() {
            return;
        }
        let selected_text = self.get_selected_text();
        let (start, end) = self.get_normalized_selection();
        let ghost lines = self.spot().0;
        let ghost history = self.flushed_undo();
        proof {
            assert(ordered(start, end));
        }
        let operation = EditOperation::DeleteText { position: start, text: selected_text };
        self.cut_between(start, end);
        self.selection_start = None;
        self.selection_end = None;
        self.selection_mode = false;
        self.modified = true;
        proof {
            assert(self.flushed_undo() == history);
        }
        self.record_operation(operation, false);
        proof {
            lemma_capped_last(history, operation, UNDO_LIMIT as int);
            if newline_free(lines) && inside(lines, start.0 as int, start.1 as int) && inside(
                lines,
                end.0 as int,
                end.1 as int,
            ) {
                a_deleted_selection_is_one_undo_away(lines, start, end, selected_text);
                assert(applied(self.spot(), operation, true) == applied(
                    (removed_selection(lines, start, end), start.0 as int, start.1 as int),
                    operation,
                    true,
                ));
            }
        }
    }
}


/// The character that closes one typed to open a pair: a bracket, a brace,
/// a parenthesis or a quote.
pub open spec fn closer_of(c: char) -> Option<char> {
    if c == '{' {
        Some('}')
    } else if c == '[' {
        Some(']')
    } else if c == '(' {
        Some(')')
    } else if c == '"' {
        Some('"')
    } else if c == '\'' {
        Some('\'')
    } else {
        None
    }
}

/// What typing a character adds after the cursor: the closer of a pair,
/// unless that closer is already the next character.
pub open spec fn auto_closing(c: char, line: Seq<char>, x: int) -> Option<char> {
    match closer_of(c) {
        Some(k) => if 0 <= x < line.len() && line[x] == k { None } else { Some(k) },
        None => None,
    }
}

/// The character to put after the cursor when the given character is typed
/// at column `cursor_x` of the line.
pub fn get_auto_closing_char(c: char, line: &str, cursor_x: usize) -> (r: Option<char>)
    ensures
        r == auto_closing(c, line@, cursor_x as int),
{
    let chars = chars_of(line);
    let closer = if c == '{' {
        '}'
    } else if c == '[' {
        ']'
    } else if c == '(' {
        ')'
    } else if c == '"' {
        '"'
    } else if c == '\'' {
        '\''
    } else {
        return None;
    };
    if cursor_x < chars.len() && chars[cursor_x] == closer {
        None
    } else {
        Some(closer)
    }
}

/// How many spaces and tabs a line begins with.
pub open spec fn indent_len(line: Seq<char>) -> nat
    decreases line.len(),
{
    if line.len() == 0 || !(line[0] == ' ' || line[0] == '\t') {
        0
    } else {
        1 + indent_len(line.skip(1))
    }
}

/// A text without its trailing white space.
pub open spec fn trimmed_end(s: Seq<char>) -> Seq<char>
    decreases s.len(),
{
    if s.len() == 0 || !is_white(s.last()) {
        s
    } else {
        trimmed_end(s.drop_last())
    }
}

/// Whether a text, trailing white space aside, ends by opening a block.
pub open spec fn opens_block(s: Seq<char>) -> bool {
    let t = trimmed_end(s);
    t.len() > 0 && (t.last() == '{' || t.last() == '[' || t.last() == '(')
}

/// The indentation of a new line started at column `x`: that of the current
/// line, and four spaces more when what stands before the cursor opens a
/// block.
pub open spec fn auto_indent(line: Seq<char>, x: int) -> Seq<char> {
    let base = line.take(indent_len(line) as int);
    if opens_block(line.take(clamp(line, x))) { base + spaces(4) } else { base }
}

proof fn lemma_indent_len(line: Seq<char>, k: int)
    requires
        0 <= k <= line.len(),
        forall|j: int| 0 <= j < k ==> line[j] == ' ' || line[j] == '\t',
        k == line.len() || !(line[k] == ' ' || line[k] == '\t'),
    ensures
        indent_len(line) == k,
    decreases k,
{
    if k > 0 {
        lemma_indent_len(line.skip(1), k - 1);
    }
}

pub proof fn lemma_trimmed_end(s: Seq<char>, k: int)
    requires
        0 <= k <= s.len(),
        forall|j: int| k <= j < s.len() ==> is_white(#[trigger] s[j]),
        k == 0 || !is_white(s[k - 1]),
    ensures
        trimmed_end(s) == s.take(k),
    decreases s.len(),
{
    if s.len() == k {
        assert(s.take(k) == s);
    } else {
        assert(s.drop_last().take(k) == s.take(k));
        lemma_trimmed_end(s.drop_last(), k);
    }
}

/// The indentation for a new line opened at column `cursor_x` of a line: its
/// own leading spaces and tabs, four spaces deeper after an opening brace,
/// bracket or parenthesis.
pub fn calculate_auto_indent(current_line: &str, cursor_x: usize) -> (r: String)
    ensures
        r@ == auto_indent(current_line@, cursor_x as int),
{
    let chars = chars_of(current_line);
    let n = chars.len();
    let mut base = String::new();
    let mut k: usize = 0;
    while k < n && (chars[k] == ' ' || chars[k] == '\t')
        invariant
            n == chars@.len(),
            k <= n,
            forall|j: int| 0 <= j < k ==> chars@[j] == ' ' || chars@[j] == '\t',
            base@ == chars@.take(k as int),
        decreases n - k,
    {
        push_char(&mut base, chars[k]);
        proof {
            assert(base@ =~= chars@.take(k + 1));
        }
        k = k + 1;
    }
    proof {
        lemma_indent_len(chars@, k as int);
    }
    let end = if cursor_x < n { cursor_x } else { n };
    let mut t = end;
    while t > 0 && is_white_char(chars[t - 1])
        invariant
            t <= end <= n == chars@.len(),
            forall|j: int| t <= j < end ==> is_white(#[trigger] chars@[j]),
        decreases t,
    {
        t = t - 1;
    }
    let ghost before = chars@.take(end as int);
    proof {
        lemma_trimmed_end(before, t as int);
        assert(before.take(t as int) =~= chars@.take(t as int));
    }
    let opens = t > 0 && (chars[t - 1] == '{' || chars[t - 1] == '[' || chars[t - 1] == '(');
    if opens {
        let mut i: usize = 0;
        while i < 4
            invariant
                i <= 4,
                base@ == chars@.take(k as int) + spaces(i as int),
            decreases 4 - i,
        {
            push_char(&mut base, ' ');
            proof {
                assert(base@ =~= chars@.take(k as int) + spaces(i + 1));
            }
            i = i + 1;
        }
    } else {
        proof {
            assert(base@ == chars@.take(k as int));
        }
    }
    base
}


/// How long, in milliseconds, characters typed one after another still join
/// the same undo step.
pub const GROUPING_WINDOW_MILLIS: u64 = 500;

/// Whether a character typed at `now` joins the characters typed before it,
/// the last of them at `last`: it does when it comes less than the grouping
/// window after it. A clock read earlier than `last` counts as no time at all.
pub fn joins_group(last: Option<u64>, now: u64) -> (r: bool)
    ensures
        r == (last matches Some(l) && now < l + GROUPING_WINDOW_MILLIS),
{
    match last {
        Some(l) => if now <= l {
            true
        } else {
            now - l < GROUPING_WINDOW_MILLIS
        },
        None => false,
    }
}

/// How many source lines one minimap row stands for: a row is four
/// dot-rows, the file is shared out evenly over the dot-rows (rounding up),
/// and a file short enough to fit gets one line per dot-row.
pub fn minimap_lines_per_row(total_lines: usize, rows: u16) -> (r: usize)
    requires
        (if rows == 0 { total_lines as int } else { (total_lines as int + rows * 4 - 1) / (rows * 4) }) * 4
            <= usize::MAX,
    ensures
        ({
            let dot_rows: int = if rows == 0 { 1 } else { rows * 4 };
            let per_dot_row: int = (total_lines as int + dot_rows - 1) / dot_rows;
            r == (if per_dot_row < 1 { 1 } else { per_dot_row }) * 4
        }),
{
    let dot_rows: usize = if rows == 0 { 1 } else { rows as usize * 4 };
    let quotient = total_lines / dot_rows;
    let remainder = total_lines % dot_rows;
    proof {
        assert(quotient * dot_rows + remainder == total_lines && remainder < dot_rows) by (nonlinear_arith)
            requires
                dot_rows >= 1,
                quotient == total_lines / dot_rows,
                remainder == total_lines % dot_rows,
        ;
        assert(remainder != 0 ==> quotient < total_lines) by (nonlinear_arith)
            requires
                dot_rows >= 1,
                quotient * dot_rows + remainder == total_lines,
                remainder < dot_rows,
        ;
    }
    let rounded_up = if remainder == 0 { quotient } else { quotient + 1 };
    proof {
        let d = dot_rows as int;
        let t = total_lines as int;
        let q = quotient as int;
        let m = remainder as int;
        assert(rounded_up as int == (t + d - 1) / d) by (nonlinear_arith)
            requires
                d >= 1,
                q * d + m == t,
                0 <= m < d,
                rounded_up as int == if m == 0 { q } else { q + 1 },
        ;
    }
    let per_dot_row = if rounded_up < 1 { 1 } else { rounded_up };
    per_dot_row * 4
}


/// Whether a line holds a character that takes more than one byte in UTF-8.
/// The forward bracket search counts columns up to a line's length in
/// bytes, and gives up at the first column past its last character.
pub open spec fn wide(line: Seq<char>) -> bool {
    exists|j: int| 0 <= j < line.len() && (#[trigger] line[j] as u32) >= 0x80
}

/// How many more of one bracket than of its partner stand between two
/// offsets, counted from the right end.
pub open spec fn unmatched_before(text: Seq<char>, open: char, close: char, a: int, b: int) -> int
    decreases b - a,
{
    if a >= b {
        0
    } else {
        (if text[a] == close { 1int } else if text[a] == open { -1int } else { 0int }) + unmatched_before(
            text,
            open,
            close,
            a + 1,
            b,
        )
    }
}

/// The last opening bracket before offset `i` that nothing between it and
/// offset `o` closes.
pub open spec fn open_match(text: Seq<char>, open: char, close: char, i: int, o: int) -> Option<int>
    decreases i,
{
    if i <= 0 {
        None
    } else if text[i - 1] == open && unmatched_before(text, open, close, i, o) == 0 {
        Some(i - 1)
    } else {
        open_match(text, open, close, i - 1, o)
    }
}

/// Where a cursor stands in the flat text; past the last line, its end.
pub open spec fn cursor_at(lines: Seq<Seq<char>>, x: int, y: int) -> int {
    if y < lines.len() { offset(lines, x, y) } else { flat(lines).len() as int }
}

proof fn lemma_close_after_at_least(text: Seq<char>, open: char, close: char, k: int, end: int)
    ensures
        close_after(text, open, close, k, end) matches Some(j) ==> j >= k,
    decreases text.len() - k,
{
    if 0 <= k < text.len() {
        lemma_close_after_at_least(text, open, close, k + 1, end);
    }
}

proof fn lemma_flat_take_grows(lines: Seq<Seq<char>>, a: int, b: int)
    requires
        0 <= a < b <= lines.len(),
    ensures
        flat(lines.take(a)).len() + lines[a].len() + 1 <= flat(lines.take(b)).len(),
    decreases b - a,
{
    lemma_flat_take_next(lines, a);
    if a + 1 < b {
        lemma_flat_take_grows(lines, a + 1, b);
    }
}

/// A character of a line up to line `y` comes before the end of line `y`.
proof fn lemma_offset_within(lines: Seq<Seq<char>>, x: int, y: int, last: int)
    requires
        0 <= y <= last < lines.len(),
        0 <= x < lines[y].len(),
    ensures
        offset(lines, x, y) < offset(lines, lines[last].len() as int, last),
{
    if y < last {
        lemma_flat_take_grows(lines, y, last);
    }
}

/// Whether a line holds a character wider than one byte in UTF-8.
fn has_wide_char(line: &Vec<char>) -> (r: bool)
    ensures
        r == wide(line@),
{
    let mut i: usize = 0;
    while i < line.len()
        invariant
            i <= line@.len(),
            forall|j: int| 0 <= j < i ==> (#[trigger] line@[j] as u32) < 0x80,
        decreases line.len() - i,
    {
        if line[i] as u32 >= 0x80 {
            return true;
        }
        i = i + 1;
    }
    false
}

/// How many bytes a line takes in UTF-8.
pub open spec fn byte_len(line: Seq<char>) -> nat
    decreases line.len(),
{
    if line.len() == 0 {
        0
    } else {
        byte_len(line.drop_last()) + utf8_width(line.last())
    }
}

/// The character at a column, or a space past the end of the line.
pub open spec fn col_char(line: Seq<char>, x: int) -> char {
    if 0 <= x < line.len() { line[x] } else { ' ' }
}

/// Where a run of word (or of non-word) characters that ends at column `x`
/// begins.
pub open spec fn back_over(line: Seq<char>, x: int, word: bool) -> int
    decreases x,
{
    if x > 0 && is_word(col_char(line, x - 1)) == word {
        back_over(line, x - 1, word)
    } else {
        x
    }
}

/// Where a run of word (or of non-word) characters that begins at column `x`
/// ends, counting columns up to the line's length in bytes.
pub open spec fn forward_over(line: Seq<char>, x: int, word: bool) -> int
    decreases byte_len(line) - x,
{
    if 0 <= x < byte_len(line) && is_word(col_char(line, x)) == word {
        forward_over(line, x + 1, word)
    } else {
        x
    }
}

/// Where a step one word back from a cursor lands: at the start of a line,
/// the end of the line above; otherwise the start of the run of word (or of
/// non-word) characters the cursor stands just after.
pub open spec fn prev_boundary(lines: Seq<Seq<char>>, cx: int, cy: int) -> (int, int) {
    if cy >= lines.len() {
        (0, 0)
    } else if cx == 0 {
        if cy > 0 { (lines[cy - 1].len() as int, cy - 1) } else { (0, cy) }
    } else {
        let line = lines[cy];
        let x = cx - 1;
        if x < byte_len(line) && !is_word(col_char(line, x)) {
            (back_over(line, x, false), cy)
        } else {
            (back_over(line, x, true), cy)
        }
    }
}

/// Where a step one word forward from a cursor lands: past the rest of the
/// word it stands on and the non-word characters after it, and to the start
/// of the next line from the end of a line that is not the last.
pub open spec fn next_boundary(lines: Seq<Seq<char>>, cx: int, cy: int) -> (int, int) {
    if cy >= lines.len() {
        (0, 0)
    } else {
        let line = lines[cy];
        if cx >= byte_len(line) {
            if cy + 1 < lines.len() { (0, cy + 1) } else { (cx, cy) }
        } else {
            let past_word = if is_word(col_char(line, cx)) { forward_over(line, cx, true) } else { cx };
            let x = forward_over(line, past_word, false);
            if x >= byte_len(line) && cy + 1 < lines.len() { (0, cy + 1) } else { (x, cy) }
        }
    }
}

proof fn lemma_byte_len_prefix(line: Seq<char>, i: int)
    requires
        0 <= i <= line.len(),
    ensures
        byte_len(line.take(i)) <= byte_len(line),
        i < line.len() ==> byte_len(line.take(i + 1)) == byte_len(line.take(i)) + utf8_width(line[i]),
    decreases line.len(),
{
    if i < line.len() {
        assert(line.take(i + 1).drop_last() == line.take(i));
        if i + 1 < line.len() {
            lemma_byte_len_prefix(line.drop_last(), i);
            assert(line.drop_last().take(i) == line.take(i));
            assert(line.drop_last().take(i + 1) == line.take(i + 1));
            lemma_byte_len_prefix(line.drop_last(), i + 1);
        } else {
            assert(line.take(i + 1) == line);
        }
    } else {
        assert(line.take(i) == line);
    }
}

/// How many bytes a character takes in UTF-8.
fn char_width(c: char) -> (r: usize)
    ensures
        r == utf8_width(c),
{
    let u = c as u32;
    if u < 0x80 {
        1
    } else if u < 0x800 {
        2
    } else if u < 0x10000 {
        3
    } else {
        4
    }
}

/// How many bytes a line takes in UTF-8.
fn line_bytes(line: &Vec<char>) -> (r: usize)
    requires
        byte_len(line@) <= usize::MAX,
    ensures
        r == byte_len(line@),
{
    let mut total: usize = 0;
    let mut i: usize = 0;
    while i < line.len()
        invariant
            i <= line@.len(),
            byte_len(line@) <= usize::MAX,
            total == byte_len(line@.take(i as int)),
        decreases line.len() - i,
    {
        proof {
            lemma_byte_len_prefix(line@, i as int);
            lemma_byte_len_prefix(line@, i + 1);
        }
        total = total + char_width(line[i]);
        i = i + 1;
    }
    proof {
        assert(line@.take(line@.len() as int) == line@);
    }
    total
}

/// The character at a column, or a space past the end of the line.
fn char_at(line: &Vec<char>, x: usize) -> (r: char)
    ensures
        r == col_char(line@, x as int),
{
    if x < line.len() { line[x] } else { ' ' }
}

/// The lines once the cursor is settled inside the file: a file with no
/// lines gets an empty one.
pub open spec fn settled_lines(lines: Seq<Seq<char>>) -> Seq<Seq<char>> {
    if lines.len() == 0 { seq![Seq::<char>::empty()] } else { lines }
}

/// The cursor's line once it is settled inside the file.
pub open spec fn settled_row(lines: Seq<Seq<char>>, y: int) -> int {
    if y < lines.len() { y } else if lines.len() == 0 { 0 } else { lines.len() - 1 }
}

/// A spot with the cursor at a position.
pub open spec fn lines_spot(lines: Seq<Seq<char>>, x: usize, y: usize) -> Spot {
    (lines, x as int, y as int)
}

/// Whether `after` recorded one edit over `before`: marked modified, the
/// typed characters closed into one entry, the edit on top of the undo
/// history, nothing left to redo, and the selection as it was.
pub open spec fn recorded(before: &Tab, after: &Tab) -> bool {
    &&& recorded_over(before, after)
    &&& after.same_selection(before)
}

/// The characters of a line as a string.
fn line_text(line: &Vec<char>) -> (r: String)
    ensures
        r@ == line@,
{
    let mut out = String::new();
    let mut i: usize = 0;
    while i < line.len()
        invariant
            i <= line@.len(),
            out@ == line@.take(i as int),
        decreases line.len() - i,
    {
        push_char(&mut out, line[i]);
        proof {
            assert(out@ =~= line@.take(i + 1));
        }
        i = i + 1;
    }
    proof {
        assert(line@.take(line@.len() as int) == line@);
    }
    out
}

/// The lines once a line break carrying an indentation is typed at column
/// `x` of line `y`: the line is split there, and its rest moves to a new line
/// below after the indentation.
pub open spec fn broken_at(lines: Seq<Seq<char>>, x: int, y: int, indent: Seq<char>) -> Seq<Seq<char>> {
    let line = lines[y];
    let k = clamp(line, x);
    lines.update(y, line.take(k)).insert(y + 1, indent + line.skip(k))
}

proof fn lemma_break_typed(lines: Seq<Seq<char>>, x: int, y: int, indent: Seq<char>)
    requires
        0 <= y < lines.len(),
        0 <= x <= lines[y].len(),
        forall|j: int| 0 <= j < indent.len() ==> #[trigger] indent[j] != '\n',
    ensures
        insert_all((lines, x, y), seq!['\n'] + indent) == (broken_at(lines, x, y, indent), indent.len() as int, y + 1),
    decreases indent.len(),
{
    let line = lines[y];
    assert(clamp(line, x) == x);
    let t = seq!['\n'] + indent;
    if indent.len() == 0 {
        assert(t == seq!['\n']);
        assert(t.drop_last().len() == 0);
        assert(insert_all((lines, x, y), t.drop_last()) == (lines, x, y));
        assert(Seq::<char>::empty() + line.skip(x) =~= line.skip(x));
    } else {
        let front = indent.drop_last();
        assert forall|j: int| 0 <= j < front.len() implies #[trigger] front[j] != '\n' by {
            assert(front[j] == indent[j]);
        }
        lemma_break_typed(lines, x, y, front);
        assert(t.drop_last() == seq!['\n'] + front);
        let c = indent.last();
        assert(t.last() == c);
        assert(c != '\n');
        let mid = broken_at(lines, x, y, front);
        assert(mid[y + 1] == front + line.skip(x));
        assert((front + line.skip(x)).insert(front.len() as int, c) =~= indent + line.skip(x));
        assert(mid.update(y + 1, (front + line.skip(x)).insert(front.len() as int, c)) =~= broken_at(lines, x, y, indent));
    }
}

proof fn lemma_removed_keeps_start(lines: Seq<Seq<char>>, start: (usize, usize), end: (usize, usize))
    requires
        removable(lines, start, end),
        ordered(start, end),
    ensures
        start.1 < removed_selection(lines, start, end).len(),
{
    if start.1 != end.1 {
        let first = lines[start.1 as int];
        let last = lines[end.1 as int];
        let joined = first.take(clamp(first, start.0 as int)) + last.skip(clamp(last, end.0 as int));
        assert(removed_selection(lines, start, end).len() == start.1 + 1 + (lines.len() - end.1 - 1));
    }
}

proof fn lemma_indent_chars(line: Seq<char>)
    ensures
        indent_len(line) <= line.len(),
        forall|j: int| 0 <= j < indent_len(line) ==> #[trigger] line[j] == ' ' || line[j] == '\t',
    decreases line.len(),
{
    if line.len() > 0 && (line[0] == ' ' || line[0] == '\t') {
        lemma_indent_chars(line.skip(1));
        assert forall|j: int| 0 <= j < indent_len(line) implies #[trigger] line[j] == ' ' || line[j] == '\t' by {
            if j > 0 {
                assert(line[j] == line.skip(1)[j - 1]);
            }
        }
    }
}

proof fn lemma_auto_indent_blank(line: Seq<char>, x: int)
    ensures
        forall|j: int| 0 <= j < auto_indent(line, x).len() ==> #[trigger] auto_indent(line, x)[j] != '\n',
{
    lemma_indent_chars(line);
    let base = line.take(indent_len(line) as int);
    assert forall|j: int| 0 <= j < auto_indent(line, x).len() implies #[trigger] auto_indent(line, x)[j] != '\n' by {
        if j < base.len() {
            assert(auto_indent(line, x)[j] == line[j]);
        } else {
            assert(auto_indent(line, x)[j] == ' ');
        }
    }
}

proof fn lemma_break_undone(lines: Seq<Seq<char>>, x: usize, y: usize, indent: Seq<char>, text: String, s: Spot)
    requires
        newline_free(lines),
        inside(lines, x as int, y as int),
        forall|j: int| 0 <= j < indent.len() ==> #[trigger] indent[j] != '\n',
        text@ == seq!['\n'] + indent,
        s.0 == broken_at(lines, x as int, y as int, indent),
    ensures
        applied(s, EditOperation::InsertText { position: (x, y), text }, true).0 == lines,
{
    lemma_break_typed(lines, x as int, y as int, indent);
    let start: Spot = (lines, x as int, y as int);
    typed_text_is_taken_back(start, (x, y), text);
    let op = EditOperation::InsertText { position: (x, y), text };
    assert(at(applied(start, op, false), (x, y)) == at(s, (x, y)));
}

/// The text an edit that types text carries.
pub open spec fn text_of(op: EditOperation) -> String {
    match op {
        EditOperation::InsertText { text, .. } => text,
        _ => arbitrary(),
    }
}

/// Whether an edit is the line break typed at `(x, y)` with the given
/// indentation.
pub open spec fn typed_break(op: EditOperation, x: int, y: int, indent: Seq<char>) -> bool {
    op matches EditOperation::InsertText { position, text } && position == (x as usize, y as usize) && text@
        == seq!['\n'] + indent
}

/// Whether `after` recorded one edit over `before`: marked modified, the
/// typed characters closed into one entry, the edit on top of the undo
/// history, and nothing left to redo.
pub open spec fn recorded_over(before: &Tab, after: &Tab) -> bool {
    &&& after.modified
    &&& after.char_insert_group@.len() == 0
    &&& after.redo_stack@.len() == 0
    &&& after.undo_stack@ == capped(before.flushed_undo().push(after.undo_stack@.last()), UNDO_LIMIT as int)
}

/// The pieces a text falls into between its newlines.
pub open spec fn pieces_of(text: Seq<char>) -> Seq<Seq<char>>
    decreases text.len(),
{
    if text.len() == 0 {
        seq![Seq::<char>::empty()]
    } else {
        let front = pieces_of(text.drop_last());
        if text.last() == '\n' {
            front.push(Seq::empty())
        } else {
            front.update(front.len() - 1, front.last().push(text.last()))
        }
    }
}

proof fn lemma_pieces_nonempty(text: Seq<char>)
    ensures
        pieces_of(text).len() >= 1,
    decreases text.len(),
{
    if text.len() > 0 {
        lemma_pieces_nonempty(text.drop_last());
    }
}

/// The pieces of a text with the start of a line before the first and the
/// rest of the line after the last.
pub open spec fn spliced(pieces: Seq<Seq<char>>, before: Seq<char>, after: Seq<char>) -> Seq<Seq<char>> {
    let first = pieces.update(0, before + pieces[0]);
    first.update(first.len() - 1, first.last() + after)
}

/// Where a block of lines lands when it is put in at the cursor: a cursor
/// past the last line first gets a new empty line, a column past the end of
/// its line is pulled back to the end, and the text goes in there whole, the
/// rest of the line following its last line.
pub open spec fn lines_inserted(s: Spot, text: Seq<char>) -> Spot {
    let (lines0, x0, y0) = s;
    let lines = if y0 >= lines0.len() { lines0.push(Seq::empty()) } else { lines0 };
    let y = if y0 >= lines0.len() { lines.len() - 1 } else { y0 };
    let line = lines[y];
    let x = clamp(line, x0);
    let pieces = pieces_of(text);
    let joined = spliced(pieces, line.take(x), line.skip(x));
    (
        lines.take(y) + joined + lines.skip(y + 1),
        if pieces.len() == 1 { x + pieces[0].len() } else { pieces.last().len() as int },
        y + pieces.len() - 1,
    )
}

/// A text cut at its newlines.
fn split_pieces(text: &str) -> (r: Vec<Vec<char>>)
    ensures
        r@.map_values(|p: Vec<char>| p@) == pieces_of(text@),
        r@.len() >= 1,
{
        let chars = chars_of(text);
        let mut pieces: Vec<Vec<char>> = Vec::new();
        pieces.push(Vec::new());
        let mut i: usize = 0;
        proof {
            assert(chars@.take(0).len() == 0);
            assert(pieces@.map_values(|p: Vec<char>| p@) =~= pieces_of(chars@.take(0)));
        }
        while i < chars.len()
            invariant
                i <= chars@.len(),
                pieces@.len() >= 1,
                pieces@.map_values(|p: Vec<char>| p@) == pieces_of(chars@.take(i as int)),
            decreases chars.len() - i,
        {
            let c = chars[i];
            let ghost before = pieces@.map_values(|p: Vec<char>| p@);
            proof {
                assert(chars@.take(i + 1).drop_last() == chars@.take(i as int));
                assert(chars@.take(i + 1).last() == c);
            }
            if c == '\n' {
                pieces.push(Vec::new());
                proof {
                    assert(pieces@.map_values(|p: Vec<char>| p@) =~= before.push(Seq::<char>::empty()));
                }
            } else {
                let k = pieces.len() - 1;
                let mut piece: Vec<char> = Vec::new();
                pieces.set_and_swap(k, &mut piece);
                piece.push(c);
                pieces.set(k, piece);
                proof {
                    assert(pieces@.map_values(|p: Vec<char>| p@) =~= before.update(
                        before.len() - 1,
                        before.last().push(c),
                    ));
                }
            }
            i = i + 1;
        }
        proof {
            assert(chars@.take(chars@.len() as int) == text@);
        }
        pieces
}

/// The closer that wraps a selection when an opener is typed over it.
pub open spec fn surround_of(c: char) -> Option<char> {
    if c == '(' {
        Some(')')
    } else if c == '[' {
        Some(']')
    } else if c == '{' {
        Some('}')
    } else if c == '`' {
        Some('`')
    } else if c == '\'' {
        Some('\'')
    } else if c == '"' {
        Some('"')
    } else {
        None
    }
}

/// The closer that wraps a selection when an opener is typed over it.
pub fn surround_pair(c: char) -> (r: Option<char>)
    ensures
        r == surround_of(c),
{
    if c == '(' {
        Some(')')
    } else if c == '[' {
        Some(']')
    } else if c == '{' {
        Some('}')
    } else if c == '`' {
        Some('`')
    } else if c == '\'' {
        Some('\'')
    } else if c == '"' {
        Some('"')
    } else {
        None
    }
}

/// The text between two positions taken in either order; nothing for a
/// span that starts where it ends.
pub open spec fn span_text(lines: Seq<Seq<char>>, start: (usize, usize), end: (usize, usize)) -> Seq<char> {
    if start == end {
        Seq::empty()
    } else {
        selection_text(lines, normalized(start, end).0, normalized(start, end).1)
    }
}

/// The lines and cursor once the text between two positions is swapped for
/// another: the span deleted, the cursor at its start, the new text typed.
pub open spec fn span_replaced(lines: Seq<Seq<char>>, start: (usize, usize), end: (usize, usize), text: Seq<char>) -> Spot {
    let (a, b) = normalized(start, end);
    insert_all((removed_selection(lines, a, b), a.0 as int, a.1 as int), text)
}

/// Whether swapping the text between two positions for another stays inside
/// the file: the span's lines exist and the new text can be typed.
pub open spec fn span_replaceable(lines: Seq<Seq<char>>, start: (usize, usize), end: (usize, usize), text: Seq<char>) -> bool {
    let (a, b) = normalized(start, end);
    removable(lines, a, b) && insert_all_ok((removed_selection(lines, a, b), a.0 as int, a.1 as int), text)
}

/// What typing a closing brace over nothing but indentation leaves: the
/// indentation one level (four spaces) shallower when it ends in four spaces,
/// then the brace, then the rest of the line.
pub open spec fn dedented(line: Seq<char>, x: int) -> Seq<char> {
    let k = clamp(line, x);
    let before = line.take(k);
    let kept = if before.len() >= 4 && before.skip(before.len() - 4) == seq![' ', ' ', ' ', ' '] {
        before.take(before.len() - 4)
    } else {
        before
    };
    kept + seq!['}'] + line.skip(k)
}

/// Whether only white space stands before a column of a line.
pub open spec fn blank_before(line: Seq<char>, x: int) -> bool {
    forall|j: int| 0 <= j < clamp(line, x) ==> is_white(#[trigger] line[j])
}

/// A character typed into a line at a column: the line padded with spaces
/// to reach it, the character, and a closer after it when one is owed.
pub open spec fn typed_into(line: Seq<char>, x: int, c: char, closer: Option<char>) -> Seq<char> {
    let padded = if x > line.len() { line + spaces(x - line.len()) } else { line };
    let with_c = padded.insert(x, c);
    match closer {
        Some(k) => with_c.insert(x + 1, k),
        None => with_c,
    }
}

/// The lines and cursor once the selection of `before`, if it has one, is
/// taken out of the given lines; the cursor then stands where it began.
pub open spec fn cut_state(lines: Seq<Seq<char>>, x: int, y: int, before: &Tab) -> Spot {
    if before.selecting() {
        let (start, end) = before.selection_bounds();
        (removed_selection(lines, start, end), start.0 as int, start.1 as int)
    } else {
        (lines, x, y)
    }
}

/// Whether `after` recorded a typed character over `before`: it joins the
/// group of characters typed before it when `grouped` says it came soon
/// enough after them, and starts a new group otherwise.
pub open spec fn typing_recorded(before: &Tab, after: &Tab, op: EditOperation, grouped: bool) -> bool {
    &&& after.modified
    &&& after.redo_stack@ == before.redo_stack@
    &&& grouped && before.char_insert_group@.len() > 0 ==> {
        &&& after.char_insert_group@ == before.char_insert_group@.push(op)
        &&& after.undo_stack@ == before.undo_stack@
    }
    &&& !(grouped && before.char_insert_group@.len() > 0) ==> {
        &&& after.char_insert_group@ == seq![op]
        &&& after.undo_stack@ == before.flushed_undo()
    }
}

/// What the forward search for a bracket's partner answers.
pub open spec fn bracket_forward(t: &Tab, open: char, close: char, r: Option<(usize, usize)>) -> bool {
    match r {
        Some(p) => t.closes_at(open, close, p),
        None => t.closes_nowhere(open, close),
    }
}

/// What the backward search for a bracket's partner answers.
pub open spec fn bracket_backward(t: &Tab, open: char, close: char, r: Option<(usize, usize)>) -> bool {
    match r {
        Some(p) => t.holds(p.0 as int, p.1 as int) && t.opening_found(open, close) == Some(
            offset(t.spot().0, p.0 as int, p.1 as int),
        ),
        None => t.opening_found(open, close) is None,
    }
}

impl Tab {
    /// Where in the flat text the search for the bracket that closes the one
    /// at the cursor ends: the first `close` after the cursor at which as many
    /// `close` as `open` brackets have come.
    pub open spec fn closing_found(&self, open: char, close: char) -> Option<int> {
        let lines = self.spot().0;
        let from = offset(lines, self.cursor_x as int, self.cursor_y as int) + 1;
        close_after(flat(lines), open, close, from, from)
    }

    /// Whether the bracket at `p` closes the one at the cursor, no line
    /// between them holding a character wider than one byte.
    pub open spec fn closes_at(&self, open: char, close: char, p: (usize, usize)) -> bool {
        let lines = self.spot().0;
        &&& self.holds(p.0 as int, p.1 as int)
        &&& self.closing_found(open, close) == Some(offset(lines, p.0 as int, p.1 as int))
        &&& forall|k: int| self.cursor_y <= k < p.1 ==> !wide(#[trigger] lines[k])
    }

    /// Whether no bracket closes the one at the cursor, or a line holding a
    /// character wider than one byte stands before it.
    pub open spec fn closes_nowhere(&self, open: char, close: char) -> bool {
        let lines = self.spot().0;
        forall|x: int, y: int|
            #![trigger offset(lines, x, y)]
            self.holds(x, y) && self.closing_found(open, close) == Some(offset(lines, x, y)) ==> exists|k: int|
                self.cursor_y <= k < y && wide(#[trigger] lines[k])
    }

    /// Where in the flat text the bracket that opens the one at the cursor
    /// stands: the last `open` before the cursor with as many `open` as
    /// `close` brackets after it.
    pub open spec fn opening_found(&self, open: char, close: char) -> Option<int> {
        let lines = self.spot().0;
        let o = offset(lines, self.cursor_x as int, self.cursor_y as int);
        open_match(flat(lines), open, close, o, o)
    }
}

impl Tab {
    /// Whether `(x, y)` is a character of the tab.
    pub open spec fn holds(&self, x: int, y: int) -> bool {
        0 <= y < self.spot().0.len() && 0 <= x < self.spot().0[y].len()
    }

    /// The bracket that closes the one at the cursor: the first `close` after
    /// it in reading order at which as many `close` as `open` brackets have
    /// come, unless the search passes the end of a line holding a character
    /// wider than one byte first.
    pub fn find_closing_bracket(&self, open: char, close: char) -> (r: Option<(usize, usize)>)
        requires
            self.holds(self.cursor_x as int, self.cursor_y as int),
            flat(self.spot().0).len() < usize::MAX,
            open != close,
            open != '\n',
            close != '\n',
        ensures
            r matches Some(p) ==> self.closes_at(open, close, p),
            r is None ==> self.closes_nowhere(open, close),
    {
        let ghost lines = self.spot().0;
        let ghost f = flat(lines);
        let ghost from = offset(lines, self.cursor_x as int, self.cursor_y as int) + 1;
        let n = self.content.len();
        let width = self.content[self.cursor_y].len();
        proof {
            assert(self.cursor_x < width);
        }
        let mut y = self.cursor_y;
        let mut x = self.cursor_x + 1;
        let mut depth: usize = 1;
        proof {
            lemma_flat_split(lines, y as int);
        }
        while y < n
            invariant
                n == lines.len() == self.content@.len(),
                lines == self.spot().0,
                f == flat(lines),
                f.len() < usize::MAX,
                open != close && open != '\n' && close != '\n',
                self.cursor_y <= y <= n,
                y < n ==> x <= lines[y as int].len(),
                y < n ==> from <= offset(lines, x as int, y as int) < f.len(),
                y == n ==> from <= f.len(),
                1 <= from,
                from == offset(lines, self.cursor_x as int, self.cursor_y as int) + 1,
                depth == 1 + unmatched_after(f, open, close, from, cursor_at(lines, x as int, y as int)),
                1 <= depth <= 1 + cursor_at(lines, x as int, y as int) - from,
                close_after(f, open, close, cursor_at(lines, x as int, y as int), from) == close_after(f, open, close, from, from),
                forall|k: int| self.cursor_y <= k < y ==> !wide(#[trigger] lines[k]),
            decreases n - y, lines[y as int].len() - x,
        {
            let line = &self.content[y];
            let w = line.len();
            proof {
                assert(line@ == lines[y as int]);
                lemma_flat_split(lines, y as int);
            }
            let ghost off = offset(lines, x as int, y as int);
            proof {
                assert(cursor_at(lines, x as int, y as int) == off);
                assert(depth <= off);
            }
            if x < w {
                let c = line[x];
                proof {
                    assert(f[off] == c);
                }
                if c == open {
                    depth = depth + 1;
                } else if c == close {
                    depth = depth - 1;
                    if depth == 0 {
                        proof {
                            assert(unmatched_after(f, open, close, from, off) == 0);
                            assert(close_after(f, open, close, off, from) == Some(off));
                        }
                        return Some((x, y));
                    }
                }
                x = x + 1;
                proof {
                    assert(offset(lines, x as int, y as int) == off + 1);
                }
            } else {
                proof {
                    assert(f[off] == '\n');
                }
                if has_wide_char(line) {
                    proof {
                        assert forall|xx: int, yy: int|
                            #![trigger offset(lines, xx, yy)]
                            self.holds(xx, yy) && self.closing_found(open, close) == Some(offset(lines, xx, yy))
                            implies exists|k: int| self.cursor_y <= k < yy && wide(#[trigger] lines[k]) by {
                            lemma_close_after_at_least(f, open, close, off + 1, from);
                            if yy <= y {
                                lemma_offset_within(lines, xx, yy, y as int);
                            }
                            assert(wide(lines[y as int]));
                        }
                    }
                    return None;
                }
                proof {
                    lemma_flat_take_next(lines, y as int);
                    if y + 1 == n {
                        assert(lines.take(n as int) == lines);
                    }
                }
                y = y + 1;
                x = 0;
            }
        }
        None
    }

    /// The bracket that opens the one at the cursor: the last `open` before
    /// it with as many `open` as `close` brackets between.
    pub fn find_opening_bracket(&self, close: char, open: char) -> (r: Option<(usize, usize)>)
        requires
            self.holds(self.cursor_x as int, self.cursor_y as int),
            flat(self.spot().0).len() < usize::MAX,
            open != close,
            open != '\n',
            close != '\n',
        ensures
            r matches Some(p) ==> self.holds(p.0 as int, p.1 as int) && self.opening_found(open, close) == Some(
                offset(self.spot().0, p.0 as int, p.1 as int),
            ),
            r is None ==> self.opening_found(open, close) is None,
    {
        let ghost lines = self.spot().0;
        let ghost f = flat(lines);
        let ghost o = offset(lines, self.cursor_x as int, self.cursor_y as int);
        let n = self.content.len();
        let mut y = self.cursor_y;
        let mut x = self.cursor_x;
        let mut depth: usize = 1;
        proof {
            lemma_flat_split(lines, y as int);
        }
        loop
            invariant
                n == lines.len() == self.content@.len(),
                lines == self.spot().0,
                f == flat(lines),
                f.len() < usize::MAX,
                open != close && open != '\n' && close != '\n',
                y < n,
                x <= lines[y as int].len(),
                o == offset(lines, self.cursor_x as int, self.cursor_y as int),
                offset(lines, x as int, y as int) <= o < f.len(),
                depth == 1 + unmatched_before(f, open, close, offset(lines, x as int, y as int), o),
                1 <= depth <= 1 + o - offset(lines, x as int, y as int),
                open_match(f, open, close, offset(lines, x as int, y as int), o) == open_match(f, open, close, o, o),
            decreases y, x,
        {
            let ghost cur = offset(lines, x as int, y as int);
            proof {
                lemma_flat_split(lines, y as int);
            }
            if x > 0 {
                x = x - 1;
                let c = self.content[y][x];
                proof {
                    assert(self.content@[y as int]@ == lines[y as int]);
                    assert(f[cur - 1] == c);
                    assert(offset(lines, x as int, y as int) == cur - 1);
                }
                if c == close {
                    depth = depth + 1;
                } else if c == open {
                    depth = depth - 1;
                    if depth == 0 {
                        return Some((x, y));
                    }
                }
            } else if y == 0 {
                proof {
                    assert(lines.take(0).len() == 0);
                    assert(flat(lines.take(0)) == Seq::<char>::empty());
                }
                return None;
            } else {
                proof {
                    lemma_flat_take_next(lines, y - 1);
                    lemma_flat_split(lines, y - 1);
                    assert(f[cur - 1] == '\n');
                }
                y = y - 1;
                x = self.content[y].len();
                proof {
                    assert(self.content@[y as int]@ == lines[y as int]);
                    assert(offset(lines, x as int, y as int) == cur - 1);
                }
            }
        }
    }

    /// The bracket that matches the one under the cursor: forward for an
    /// opening bracket, backward for a closing one; nothing when the cursor is
    /// not on a bracket.
    pub fn find_matching_bracket(&self) -> (r: Option<(usize, usize)>)
        requires
            flat(self.spot().0).len() < usize::MAX,
        ensures
            !self.holds(self.cursor_x as int, self.cursor_y as int) ==> r is None,
            self.holds(self.cursor_x as int, self.cursor_y as int) ==> {
                let c = self.spot().0[self.cursor_y as int][self.cursor_x as int];
                &&& c == '(' ==> bracket_forward(self, '(', ')', r)
                &&& c == '[' ==> bracket_forward(self, '[', ']', r)
                &&& c == '{' ==> bracket_forward(self, '{', '}', r)
                &&& c == ')' ==> bracket_backward(self, '(', ')', r)
                &&& c == ']' ==> bracket_backward(self, '[', ']', r)
                &&& c == '}' ==> bracket_backward(self, '{', '}', r)
                &&& !(c == '(' || c == '[' || c == '{' || c == ')' || c == ']' || c == '}') ==> r is None
            },
    {
        if self.cursor_y >= self.content.len() {
            return None;
        }
        let line = &self.content[self.cursor_y];
        if self.cursor_x >= line.len() {
            return None;
        }
        let c = line[self.cursor_x];
        proof {
            assert(line@ == self.spot().0[self.cursor_y as int]);
        }
        if c == '(' {
            self.find_closing_bracket('(', ')')
        } else if c == '[' {
            self.find_closing_bracket('[', ']')
        } else if c == '{' {
            self.find_closing_bracket('{', '}')
        } else if c == ')' {
            self.find_opening_bracket(')', '(')
        } else if c == ']' {
            self.find_opening_bracket(']', '[')
        } else if c == '}' {
            self.find_opening_bracket('}', '{')
        } else {
            None
        }
    }

    /// Where moving one word back from the cursor lands.
    pub fn find_prev_word_boundary(&self) -> (r: (usize, usize))
        requires
            self.cursor_y < self.content@.len() ==> byte_len(self.spot().0[self.cursor_y as int]) <= usize::MAX,
        ensures
            (r.0 as int, r.1 as int) == prev_boundary(self.spot().0, self.cursor_x as int, self.cursor_y as int),
    {
        let ghost lines = self.spot().0;
        if self.cursor_y >= self.content.len() {
            return (0, 0);
        }
        let y = self.cursor_y;
        let line = &self.content[y];
        proof {
            assert(line@ == lines[y as int]);
        }
        if self.cursor_x == 0 {
            if y > 0 {
                proof {
                    assert(self.content@[y - 1]@ == lines[y - 1]);
                }
                return (self.content[y - 1].len(), y - 1);
            }
            return (0, y);
        }
        let mut x = self.cursor_x - 1;
        let bytes = line_bytes(line);
        let word = !(x < bytes && !is_word_char(char_at(line, x)));
        let ghost start = x;
        while x > 0 && is_word_char(char_at(line, x - 1)) == word
            invariant
                x <= start,
                back_over(line@, x as int, word) == back_over(line@, start as int, word),
            decreases x,
        {
            x = x - 1;
        }
        (x, y)
    }

    /// Where moving one word forward from the cursor lands.
    pub fn find_next_word_boundary(&self) -> (r: (usize, usize))
        requires
            self.cursor_y < self.content@.len() ==> byte_len(self.spot().0[self.cursor_y as int]) <= usize::MAX,
        ensures
            (r.0 as int, r.1 as int) == next_boundary(self.spot().0, self.cursor_x as int, self.cursor_y as int),
    {
        let ghost lines = self.spot().0;
        let n = self.content.len();
        if self.cursor_y >= n {
            return (0, 0);
        }
        let y = self.cursor_y;
        let line = &self.content[y];
        proof {
            assert(line@ == lines[y as int]);
        }
        let bytes = line_bytes(line);
        let mut x = self.cursor_x;
        if x >= bytes {
            if y < n - 1 {
                return (0, y + 1);
            }
            return (x, y);
        }
        if is_word_char(char_at(line, x)) {
            let ghost start = x;
            while x < bytes && is_word_char(char_at(line, x))
                invariant
                    start <= x <= bytes,
                    bytes == byte_len(line@),
                    forward_over(line@, x as int, true) == forward_over(line@, start as int, true),
                decreases bytes - x,
            {
                x = x + 1;
            }
        }
        let ghost middle = x;
        while x < bytes && !is_word_char(char_at(line, x))
            invariant
                middle <= x <= bytes,
                bytes == byte_len(line@),
                forward_over(line@, x as int, false) == forward_over(line@, middle as int, false),
            decreases bytes - x,
        {
            x = x + 1;
        }
        if x >= bytes && y < n - 1 {
            return (0, y + 1);
        }
        (x, y)
    }

    /// Deletes the character under the cursor, or with the cursor at the end
    /// of a line pulls the next line up; deletes the selection instead when
    /// there is one. The cursor is first settled inside the file, and the
    /// edit is recorded so that one undo takes it back.
    pub fn delete_forward(&mut self)
        ensures
            ({
                let lines = settled_lines(old(self).spot().0);
                let x = old(self).cursor_x as int;
                let y = settled_row(old(self).spot().0, old(self).cursor_y as int);
                let line = lines[y];
                let last = final(self).undo_stack@.last();
                &&& old(self).selecting() ==> final(self).took_selection(lines, x, y, old(self))
                &&& !old(self).selecting() && x < line.len() ==> {
                    &&& final(self).spot() == (lines.update(y, line.remove(x)), x, y)
                    &&& last == (EditOperation::DeleteChar { position: (x as usize, y as usize), char: line[x] })
                    &&& recorded(old(self), final(self))
                }
                &&& !old(self).selecting() && x >= line.len() && y + 1 < lines.len() ==> {
                    &&& final(self).spot() == (lines.update(y, line + lines[y + 1]).remove(y + 1), x, y)
                    &&& (last matches EditOperation::DeleteNewline { position, merged_content }
                        && position == (line.len() as usize, y as usize) && merged_content@ == lines[y + 1])
                    &&& recorded(old(self), final(self))
                }
                &&& !old(self).selecting() && x >= line.len() && y + 1 >= lines.len() ==> {
                    &&& final(self).spot() == (lines, x, y)
                    &&& final(self).only_text_differs(old(self))
                }
                &&& !old(self).selecting() && (x < line.len() || y + 1 < lines.len()) ==> applied(
                    final(self).spot(),
                    last,
                    true,
                ).0 == lines
            }),
    {
        self.settle_cursor();
        if self.has_selection() {
            self.delete_selected_text();
            return;
        }
        let ghost lines = self.spot().0;
        let ghost history = self.flushed_undo();
        let n = self.content.len();
        let y = self.cursor_y;
        let x = self.cursor_x;
        let width = self.content[y].len();
        proof {
            assert(self.content@[y as int]@ == lines[y as int]);
            assert(history == old(self).flushed_undo());
        }
        if x < width {
            let deleted = self.content[y][x];
            let operation = EditOperation::DeleteChar { position: (x, y), char: deleted };
            self.remove_char();
            self.modified = true;
            self.record_operation(operation, false);
            proof {
                lemma_capped_last(history, operation, UNDO_LIMIT as int);
                a_deleted_character_is_put_back(lines_spot(lines, x, y), (x, y), deleted);
            }
        } else if y + 1 < n {
            let merged = line_text(&self.content[y + 1]);
            proof {
                assert(self.content@[y + 1]@ == lines[y + 1]);
            }
            let operation = EditOperation::DeleteNewline { position: (width, y), merged_content: merged };
            self.join_line();
            self.modified = true;
            self.record_operation(operation, false);
            proof {
                lemma_capped_last(history, operation, UNDO_LIMIT as int);
                a_joined_line_is_split_back(lines_spot(lines, x, y), (width, y), merged);
            }
        }
    }

    /// Deletes the character before the cursor, or at the start of a line
    /// joins it onto the end of the line above; deletes the selection instead
    /// when there is one. The cursor is first settled inside the file, and the
    /// edit is recorded so that one undo takes it back.
    pub fn delete_char(&mut self)
        ensures
            ({
                let lines = settled_lines(old(self).spot().0);
                let x = old(self).cursor_x as int;
                let y = settled_row(old(self).spot().0, old(self).cursor_y as int);
                let line = lines[y];
                let last = final(self).undo_stack@.last();
                &&& old(self).selecting() ==> final(self).took_selection(lines, x, y, old(self))
                &&& !old(self).selecting() && 0 < x <= line.len() ==> {
                    &&& final(self).spot() == (lines.update(y, line.remove(x - 1)), x - 1, y)
                    &&& last == (EditOperation::DeleteChar { position: ((x - 1) as usize, y as usize), char: line[x - 1] })
                    &&& recorded(old(self), final(self))
                }
                &&& !old(self).selecting() && x > line.len() ==> {
                    &&& final(self).spot() == (lines, x, y)
                    &&& final(self).only_text_differs(old(self))
                }
                &&& !old(self).selecting() && x == 0 && y > 0 ==> {
                    &&& final(self).spot() == (
                        lines.update(y - 1, lines[y - 1] + line).remove(y),
                        lines[y - 1].len() as int,
                        y - 1,
                    )
                    &&& (last matches EditOperation::DeleteNewline { position, merged_content }
                        && position == (lines[y - 1].len() as usize, (y - 1) as usize) && merged_content@ == line)
                    &&& recorded(old(self), final(self))
                }
                &&& !old(self).selecting() && x == 0 && y == 0 ==> {
                    &&& final(self).spot() == (lines, x, y)
                    &&& final(self).only_text_differs(old(self))
                }
                &&& !old(self).selecting() && ((0 < x <= line.len()) || (x == 0 && y > 0)) ==> applied(
                    final(self).spot(),
                    last,
                    true,
                ).0 == lines
            }),
    {
        self.settle_cursor();
        if self.has_selection() {
            self.delete_selected_text();
            return;
        }
        let ghost lines = self.spot().0;
        let ghost history = self.flushed_undo();
        let y = self.cursor_y;
        let x = self.cursor_x;
        let width = self.content[y].len();
        proof {
            assert(self.content@[y as int]@ == lines[y as int]);
            assert(history == old(self).flushed_undo());
        }
        if x > 0 {
            if x - 1 < width {
                let deleted = self.content[y][x - 1];
                let operation = EditOperation::DeleteChar { position: (x - 1, y), char: deleted };
                self.cursor_x = x - 1;
                self.remove_char();
                self.modified = true;
                self.record_operation(operation, false);
                proof {
                    lemma_capped_last(history, operation, UNDO_LIMIT as int);
                    a_deleted_character_is_put_back(lines_spot(lines, (x - 1) as usize, y), ((x - 1) as usize, y), deleted);
                }
            }
        } else if y > 0 {
            let merged = line_text(&self.content[y]);
            let above = self.content[y - 1].len();
            proof {
                assert(self.content@[y - 1]@ == lines[y - 1]);
            }
            self.cursor_y = y - 1;
            self.cursor_x = above;
            self.join_line();
            let operation = EditOperation::DeleteNewline { position: (above, y - 1), merged_content: merged };
            self.modified = true;
            self.record_operation(operation, false);
            proof {
                lemma_capped_last(history, operation, UNDO_LIMIT as int);
                a_joined_line_is_split_back(lines_spot(lines, above, (y - 1) as usize), (above, (y - 1) as usize), merged);
            }
        }
    }

    /// Takes the selection out of the lines, puts the cursor where it began,
    /// and hands back the edit that would put it back, without recording it.
    /// Nothing is taken when nothing is selected.
    pub fn take_selection_for_replacement(&mut self) -> (r: Option<EditOperation>)
        requires
            old(self).selecting() ==> removable(
                old(self).spot().0,
                old(self).selection_bounds().0,
                old(self).selection_bounds().1,
            ),
        ensures
            !old(self).selecting() ==> r is None && final(self).spot() == old(self).spot() && final(self).only_text_differs(
                old(self),
            ),
            old(self).selecting() ==> {
                let (start, end) = old(self).selection_bounds();
                let lines = old(self).spot().0;
                &&& (r matches Some(EditOperation::DeleteText { position, text }) && position == start && text@
                    == selection_text(lines, start, end))
                &&& final(self).spot() == (removed_selection(lines, start, end), start.0 as int, start.1 as int)
                &&& final(self).selection_start is None
                &&& final(self).selection_end is None
                &&& !final(self).selection_mode
                &&& final(self).modified
                &&& final(self).undo_stack == old(self).undo_stack
                &&& final(self).redo_stack == old(self).redo_stack
                &&& final(self).char_insert_group == old(self).char_insert_group
            },
    {
        if !self.has_selection() {
            return None;
        }
        let text = self.get_selected_text();
        let (start, end) = self.get_normalized_selection();
        self.cut_between(start, end);
        self.selection_start = None;
        self.selection_end = None;
        self.selection_mode = false;
        self.modified = true;
        Some(EditOperation::DeleteText { position: start, text })
    }

    /// Breaks the line at the cursor, carrying the line's indentation (deeper
    /// after an opening bracket) onto the new line, and replacing the
    /// selection when there is one. The edit is recorded with the
    /// indentation, and with the selection it replaced, so that one undo takes
    /// it all back.
    pub fn insert_newline(&mut self)
        requires
            old(self).selecting() ==> removable(
                settled_lines(old(self).spot().0),
                old(self).selection_bounds().0,
                old(self).selection_bounds().1,
            ),
        ensures
            ({
                let lines = settled_lines(old(self).spot().0);
                let (start, end) = old(self).selection_bounds();
                let cut = if old(self).selecting() { removed_selection(lines, start, end) } else { lines };
                let x = if old(self).selecting() { start.0 as int } else { old(self).cursor_x as int };
                let y = if old(self).selecting() {
                    start.1 as int
                } else {
                    settled_row(old(self).spot().0, old(self).cursor_y as int)
                };
                let indent = auto_indent(cut[y], x);
                let last = final(self).undo_stack@.last();
                &&& final(self).spot() == (broken_at(cut, x, y, indent), indent.len() as int, y + 1)
                &&& recorded_over(old(self), final(self))
                &&& !old(self).selecting() ==> typed_break(last, x, y, indent) && final(self).same_selection(old(self))
                &&& old(self).selecting() ==> {
                    &&& last matches EditOperation::BatchOperation { operations }
                    &&& last->operations@.len() == 2
                    &&& (last->operations@[0] matches EditOperation::DeleteText { position, text } && position
                        == start && text@ == selection_text(lines, start, end))
                    &&& typed_break(last->operations@[1], x, y, indent)
                    &&& final(self).selection_start is None
                    &&& final(self).selection_end is None
                    &&& !final(self).selection_mode
                }
                &&& !old(self).selecting() && newline_free(lines) && x <= lines[y].len() ==> applied(
                    final(self).spot(),
                    last,
                    true,
                ).0 == lines
                &&& old(self).selecting() && newline_free(lines) && inside(lines, start.0 as int, start.1 as int)
                    && inside(lines, end.0 as int, end.1 as int) ==> applied(final(self).spot(), last, true).0
                    == lines
            }),
    {
        self.settle_cursor();
        let ghost lines = self.spot().0;
        let ghost before_cut = *self;
        let removed = self.take_selection_for_replacement();
        let ghost cut = self.spot().0;
        let y = self.cursor_y;
        let x = self.cursor_x;
        proof {
            if before_cut.selecting() {
                lemma_removed_keeps_start(lines, before_cut.selection_bounds().0, before_cut.selection_bounds().1);
            }
            assert(self.spot().0.len() == self.content@.len());
        }
        let current = line_text(&self.content[y]);
        proof {
            assert(self.content@[y as int]@ == cut[y as int]);
        }
        let indent = calculate_auto_indent(current.as_str(), x);
        let indent_chars = chars_of(indent.as_str());
        let mut text = String::new();
        push_char(&mut text, '\n');
        let mut i: usize = 0;
        while i < indent_chars.len()
            invariant
                i <= indent_chars@.len(),
                text@ == seq!['\n'] + indent_chars@.take(i as int),
            decreases indent_chars.len() - i,
        {
            push_char(&mut text, indent_chars[i]);
            proof {
                assert(text@ =~= seq!['\n'] + indent_chars@.take(i + 1));
            }
            i = i + 1;
        }
        proof {
            assert(indent_chars@.take(indent_chars@.len() as int) == indent_chars@);
        }
        let operation = EditOperation::InsertText { position: (x, y), text };
        let mut line: Vec<char> = Vec::new();
        self.content.set_and_swap(y, &mut line);
        let k = if x < line.len() { x } else { line.len() };
        let mut rest = line.split_off(k);
        self.content.set(y, line);
        let mut fresh = indent_chars;
        let width = fresh.len();
        fresh.append(&mut rest);
        let n = self.content.len();
        proof {
            assert(y < n);
        }
        self.content.insert(y + 1, fresh);
        self.cursor_y = y + 1;
        self.cursor_x = width;
        self.modified = true;
        proof {
            assert(self.spot().0 =~= broken_at(cut, x as int, y as int, indent@));
        }
        let ghost history_now = self.flushed_undo();
        proof {
            lemma_auto_indent_blank(cut[y as int], x as int);
        }
        match removed {
            Some(removal) => {
                let batch = EditOperation::BatchOperation { operations: vec![removal, operation] };
                self.record_operation(batch, false);
                proof {
                    lemma_capped_last(history_now, batch, UNDO_LIMIT as int);
                    let (start, end) = before_cut.selection_bounds();
                    if newline_free(lines) && inside(lines, start.0 as int, start.1 as int) && inside(
                        lines,
                        end.0 as int,
                        end.1 as int,
                    ) {
                        if start.1 == end.1 {
                            lemma_selection_flat_one_line(lines, start, end);
                        } else {
                            lemma_selection_flat_lines(lines, start, end);
                        }
                        lemma_removed_newline_free(lines, start, end);
                        lemma_break_undone(cut, x, y, indent@, text_of(operation), self.spot());
                        let ops = seq![removal, operation];
                        assert(batch->operations@ == ops);
                        assert(ops.skip(1) =~= seq![operation]);
                        assert(seq![operation].skip(1).len() == 0);
                        let back = applied(self.spot(), operation, true);
                        assert(undone_all(self.spot(), seq![operation].skip(1)) == self.spot());
                        assert(seq![operation][0] == operation);
                        assert(undone_all(self.spot(), seq![operation]) == back);
                        assert(undone_all(self.spot(), ops.skip(1)) == back);
                        assert(ops[0] == removal);
                        assert(undone_all(self.spot(), ops) == applied(back, removal, true));
                        a_deleted_selection_is_one_undo_away(lines, start, end, removal->DeleteText_text);
                        assert(at(back, start) == at((cut, start.0 as int, start.1 as int), start));
                    }
                }
            },
            None => {
                self.record_operation(operation, false);
                proof {
                    lemma_capped_last(history_now, operation, UNDO_LIMIT as int);
                    if newline_free(lines) && x <= lines[y as int].len() {
                        lemma_break_undone(cut, x, y, indent@, text_of(operation), self.spot());
                    }
                }
            },
        }
    }

    /// Puts a block of lines in at the cursor, whole, and leaves the cursor at
    /// the end of what went in: a cursor past the last line first gets a new
    /// empty line, and a column past the end of its line is pulled back to
    /// the end.
    #[verifier::spinoff_prover]
    #[verifier::rlimit(60)]
    pub fn insert_lines_at_cursor(&mut self, text: &str)
        ensures
            final(self).spot() == lines_inserted(old(self).spot(), text@),
            final(self).modified,
            final(self).undo_stack == old(self).undo_stack,
            final(self).redo_stack == old(self).redo_stack,
            final(self).char_insert_group == old(self).char_insert_group,
            final(self).same_selection(old(self)),
    {
        let ghost s = self.spot();
        if self.cursor_y >= self.content.len() {
            self.content.push(Vec::new());
            self.cursor_y = self.content.len() - 1;
        }
        let y = self.cursor_y;
        let width = self.content[y].len();
        if self.cursor_x > width {
            self.cursor_x = width;
        }
        let x = self.cursor_x;
        let ghost lines = self.spot().0;
        let mut line: Vec<char> = Vec::new();
        self.content.set_and_swap(y, &mut line);
        proof {
            assert(line@ == lines[y as int]);
        }
        let mut tail = line.split_off(x);
        let mut pieces = split_pieces(text);
        let ghost all = pieces@.map_values(|p: Vec<char>| p@);
        let n = pieces.len();
        let mut first: Vec<char> = Vec::new();
        pieces.set_and_swap(0, &mut first);
        let mut head = line;
        head.append(&mut first);
        proof {
            assert(head@ == lines[y as int].take(x as int) + all[0]);
            assert(tail@ == lines[y as int].skip(x as int));
        }
        if n == 1 {
            let landing = head.len();
            head.append(&mut tail);
            self.content.set(y, head);
            self.cursor_x = landing;
            self.cursor_y = y;
            self.modified = true;
            proof {
                assert(self.spot().0 =~= lines.take(y as int) + spliced(all, lines[y as int].take(x as int), lines[y as int].skip(x as int)) + lines.skip(y + 1));
            }
            return;
        }
        self.content.set(y, head);
        let ghost head_view = head@;
        let mut k: usize = 1;
        while k < n - 1
            invariant
                1 <= k <= n - 1,
                n == pieces@.len() == all.len(),
                y < lines.len(),
                self.spot().0 == lines.take(y as int) + seq![head_view] + all.subrange(1, k as int) + lines.skip(y + 1),
                forall|j: int| k <= j < n ==> #[trigger] pieces@[j]@ == all[j],
                self.content@.len() == lines.len() + k - 1,
                self.modified == old(self).modified,
                self.undo_stack == old(self).undo_stack,
                self.redo_stack == old(self).redo_stack,
                self.char_insert_group == old(self).char_insert_group,
                self.same_selection(old(self)),
            decreases n - 1 - k,
        {
            let mut piece: Vec<char> = Vec::new();
            pieces.set_and_swap(k, &mut piece);
            let count = self.content.len();
            let ghost before = self.spot().0;
            proof {
                assert(y + k <= count);
                assert(piece@ == all[k as int]);
            }
            self.content.insert(y + k, piece);
            proof {
                assert(self.spot().0 =~= before.insert(y + k, all[k as int]));
                assert(self.spot().0 =~= lines.take(y as int) + seq![head_view] + all.subrange(1, k + 1) + lines.skip(y + 1));
            }
            k = k + 1;
        }
        let mut last: Vec<char> = Vec::new();
        pieces.set_and_swap(n - 1, &mut last);
        let landing = last.len();
        proof {
            assert(last@ == all[n - 1]);
        }
        last.append(&mut tail);
        let count = self.content.len();
        let ghost before = self.spot().0;
        proof {
            assert(y + (n - 1) <= count);
        }
        self.content.insert(y + (n - 1), last);
        proof {
            assert(self.spot().0 =~= before.insert(y + n - 1, last@));
        }
        self.cursor_x = landing;
        self.cursor_y = y + (n - 1);
        self.modified = true;
        proof {
            let joined = spliced(all, lines[y as int].take(x as int), lines[y as int].skip(x as int));
            assert(joined =~= seq![head_view] + all.subrange(1, n - 1) + seq![all[n - 1] + lines[y as int].skip(x as int)]);
            assert(self.spot().0 =~= lines.take(y as int) + joined + lines.skip(y + 1));
        }
    }

    /// The text between two positions taken in either order; nothing for a
    /// span that starts where it ends.
    pub fn text_in_span(&self, start: (usize, usize), end: (usize, usize)) -> (r: String)
        ensures
            r@ == span_text(self.spot().0, start, end),
    {
        if start.0 == end.0 && start.1 == end.1 {
            return String::new();
        }
        let (a, b) = normalize_selection(start, end);
        self.selected_between(a, b)
    }

    /// Swaps the text between two positions for another as one recorded
    /// edit, so one undo takes it back; nothing happens when the text there
    /// already reads that way. The cursor ends after the new text and the
    /// selection is cleared.
    pub fn replace_span(&mut self, start: (usize, usize), end: (usize, usize), new_text: &str)
        requires
            span_text(old(self).spot().0, start, end) != new_text@ ==> span_replaceable(
                old(self).spot().0,
                start,
                end,
                new_text@,
            ),
        ensures
            span_text(old(self).spot().0, start, end) == new_text@ ==> final(self).spot() == old(self).spot()
                && final(self).only_text_differs(old(self)),
            span_text(old(self).spot().0, start, end) != new_text@ ==> {
                let last = final(self).undo_stack@.last();
                &&& final(self).spot() == span_replaced(old(self).spot().0, start, end, new_text@)
                &&& final(self).selection_start is None
                &&& final(self).selection_end is None
                &&& !final(self).selection_mode
                &&& recorded_over(old(self), final(self))
                &&& (last matches EditOperation::ReplaceText { position, old_text, new_text: written }
                    && position == start && old_text@ == span_text(old(self).spot().0, start, end) && written@
                    == new_text@)
            },
    {
        let old_text = self.text_in_span(start, end);
        if crate::text::text_is(&old_text, new_text) {
            return;
        }
        let ghost history = self.flushed_undo();
        let (a, b) = normalize_selection(start, end);
        self.cut_between(a, b);
        self.cursor_x = a.0;
        self.cursor_y = a.1;
        self.selection_start = None;
        self.selection_end = None;
        self.selection_mode = false;
        self.modified = true;
        self.insert_text_at_cursor(new_text);
        let written = String::from_str(new_text);
        let operation = EditOperation::ReplaceText { position: start, old_text, new_text: written };
        proof {
            assert(self.flushed_undo() == history);
        }
        self.record_operation(operation, false);
        proof {
            lemma_capped_last(history, operation, UNDO_LIMIT as int);
        }
    }

    /// Wraps the selection in an opening and a closing character as one
    /// recorded edit, and keeps the selection around what was wrapped, so
    /// wrapping twice nests.
    pub fn surround_selection(&mut self, opening: char, closing: char)
        requires
            span_replaceable(
                old(self).spot().0,
                old(self).selection_bounds().0,
                old(self).selection_bounds().1,
                seq![opening] + span_text(old(self).spot().0, old(self).selection_bounds().0, old(self).selection_bounds().1)
                    + seq![closing],
            ),
            old(self).selection_bounds().1.0 + 2 <= usize::MAX,
        ensures
            final(self).surrounded(old(self).spot().0, old(self), opening, closing),
    {
        let (start, end) = self.get_normalized_selection();
        let inner = self.text_in_span(start, end);
        let mut wrapped = String::new();
        push_char(&mut wrapped, opening);
        let inner_chars = chars_of(inner.as_str());
        let mut i: usize = 0;
        while i < inner_chars.len()
            invariant
                i <= inner_chars@.len(),
                wrapped@ == seq![opening] + inner_chars@.take(i as int),
            decreases inner_chars.len() - i,
        {
            push_char(&mut wrapped, inner_chars[i]);
            proof {
                assert(wrapped@ =~= seq![opening] + inner_chars@.take(i + 1));
            }
            i = i + 1;
        }
        push_char(&mut wrapped, closing);
        proof {
            assert(inner_chars@.take(inner_chars@.len() as int) == inner@);
            assert(wrapped@ =~= seq![opening] + inner@ + seq![closing]);
            assert(wrapped@.len() != inner@.len());
        }
        self.replace_span(start, end, wrapped.as_str());
        let new_end = if start.1 == end.1 { (end.0 + 2, end.1) } else { (end.0 + 1, end.1) };
        self.selection_start = Some(start);
        self.selection_end = Some(new_end);
        self.selection_mode = true;
        self.cursor_x = new_end.0;
        self.cursor_y = new_end.1;
    }

    /// Whether only white space stands before the cursor on its line, which
    /// is when a typed closing brace dedents.
    pub fn should_smart_dedent(&self) -> (r: bool)
        ensures
            r == (self.cursor_y < self.content@.len() && blank_before(
                self.spot().0[self.cursor_y as int],
                self.cursor_x as int,
            )),
    {
        if self.cursor_y >= self.content.len() {
            return false;
        }
        let line = &self.content[self.cursor_y];
        proof {
            assert(line@ == self.spot().0[self.cursor_y as int]);
        }
        let k = if self.cursor_x < line.len() { self.cursor_x } else { line.len() };
        let mut j: usize = 0;
        while j < k
            invariant
                self.cursor_y < self.content@.len(),
                line@ == self.spot().0[self.cursor_y as int],
                k == clamp(line@, self.cursor_x as int),
                k <= line@.len(),
                j <= k,
                forall|i: int| 0 <= i < j ==> is_white(#[trigger] line@[i]),
            decreases k - j,
        {
            if !is_white_char(line[j]) {
                return false;
            }
            j = j + 1;
        }
        true
    }

    /// Types a closing brace one indentation level shallower, as one recorded
    /// edit of the line, and puts the cursor after the brace.
    pub fn smart_dedent_tab(&mut self)
        ensures
            old(self).cursor_y >= old(self).content@.len() ==> final(self).spot() == old(self).spot()
                && final(self).only_text_differs(old(self)),
            old(self).cursor_y < old(self).content@.len() ==> {
                let y = old(self).cursor_y as int;
                let line = old(self).spot().0[y];
                let changed = dedented(line, old(self).cursor_x as int);
                let last = final(self).undo_stack@.last();
                &&& final(self).spot() == (
                    old(self).spot().0.update(y, changed),
                    changed.len() - line.skip(clamp(line, old(self).cursor_x as int)).len(),
                    y,
                )
                &&& recorded(old(self), final(self))
                &&& (last matches EditOperation::ReplaceText { position, old_text, new_text } && position == (
                    0usize,
                    y as usize,
                ) && old_text@ == line && new_text@ == changed)
            },
    {
        if self.cursor_y >= self.content.len() {
            return;
        }
        let ghost history = self.flushed_undo();
        let y = self.cursor_y;
        let x = self.cursor_x;
        let ghost lines = self.spot().0;
        let mut line: Vec<char> = Vec::new();
        self.content.set_and_swap(y, &mut line);
        proof {
            assert(line@ == lines[y as int]);
        }
        let old_text = line_text(&line);
        let k = if x < line.len() { x } else { line.len() };
        let mut rest = line.split_off(k);
        let ghost before = line@;
        let four = k >= 4 && line[k - 1] == ' ' && line[k - 2] == ' ' && line[k - 3] == ' ' && line[k - 4] == ' ';
        if four {
            line.truncate(k - 4);
        }
        proof {
            if before.len() >= 4 && before.skip(before.len() - 4) == seq![' ', ' ', ' ', ' '] {
                assert(before.skip(before.len() - 4)[3] == before[k - 1]);
                assert(before.skip(before.len() - 4)[2] == before[k - 2]);
                assert(before.skip(before.len() - 4)[1] == before[k - 3]);
                assert(before.skip(before.len() - 4)[0] == before[k - 4]);
            }
            if four {
                assert(before.skip(before.len() - 4) =~= seq![' ', ' ', ' ', ' ']);
            }
        }
        line.push('}');
        let landing = line.len();
        line.append(&mut rest);
        let new_text = line_text(&line);
        proof {
            assert(line@ =~= dedented(lines[y as int], x as int));
        }
        self.content.set(y, line);
        self.cursor_x = landing;
        self.modified = true;
        let operation = EditOperation::ReplaceText { position: (0, y), old_text, new_text };
        proof {
            assert(self.flushed_undo() == history);
        }
        self.record_operation(operation, false);
        proof {
            lemma_capped_last(history, operation, UNDO_LIMIT as int);
            assert(self.spot().0 =~= lines.update(y as int, dedented(lines[y as int], x as int)));
        }
    }

    /// Types a character at the cursor. An opening bracket or quote typed
    /// over a selection wraps it; otherwise a selection is replaced. A closing
    /// brace with only white space before it dedents the line one level. Any
    /// other character goes in at the cursor (the line padded with spaces to
    /// reach it), followed by its closer when it opens a pair whose closer is
    /// not already next. The edit is recorded; a typed character joins the
    /// group typed before it when `grouped` says it came soon enough after.
    pub fn insert_char(&mut self, c: char, grouped: bool)
        requires
            ({
                let lines = settled_lines(old(self).spot().0);
                let (start, end) = old(self).selection_bounds();
                let wraps = surround_of(c) is Some && old(self).selecting();
                let cut = cut_state(
                    lines,
                    old(self).cursor_x as int,
                    settled_row(old(self).spot().0, old(self).cursor_y as int),
                    old(self),
                );
                &&& wraps ==> span_replaceable(
                    lines,
                    start,
                    end,
                    seq![c] + span_text(lines, start, end) + seq![surround_of(c)->0],
                ) && end.0 + 2 <= usize::MAX
                &&& !wraps && old(self).selecting() ==> removable(lines, start, end)
                &&& !wraps ==> cut.1 < usize::MAX
            }),
        ensures
            ({
                let lines = settled_lines(old(self).spot().0);
                let (start, end) = old(self).selection_bounds();
                let wraps = surround_of(c) is Some && old(self).selecting();
                let (cl, x, y) = cut_state(
                    lines,
                    old(self).cursor_x as int,
                    settled_row(old(self).spot().0, old(self).cursor_y as int),
                    old(self),
                );
                let dedents = !wraps && c == '}' && blank_before(cl[y], x);
                let typed = EditOperation::InsertChar { position: (x as usize, y as usize), char: c };
                let last = final(self).undo_stack@.last();
                let n = final(self).undo_stack@.len();
                &&& wraps ==> final(self).surrounded(lines, old(self), c, surround_of(c)->0)
                &&& dedents ==> {
                    let changed = dedented(cl[y], x);
                    &&& final(self).spot() == (cl.update(y, changed), changed.len() - cl[y].skip(clamp(cl[y], x)).len(), y)
                    &&& final(self).modified
                    &&& final(self).char_insert_group@.len() == 0
                    &&& final(self).redo_stack@.len() == 0
                    &&& (last matches EditOperation::ReplaceText { position, old_text, new_text } && position == (
                        0usize,
                        y as usize,
                    ) && old_text@ == cl[y] && new_text@ == changed)
                    &&& !old(self).selecting() ==> final(self).undo_stack@ == capped(
                        old(self).flushed_undo().push(last),
                        UNDO_LIMIT as int,
                    )
                    &&& old(self).selecting() ==> {
                        &&& n >= 2
                        &&& final(self).undo_stack@ == capped(
                            capped(old(self).flushed_undo().push(final(self).undo_stack@[n - 2]), UNDO_LIMIT as int).push(
                                last,
                            ),
                            UNDO_LIMIT as int,
                        )
                        &&& (final(self).undo_stack@[n - 2] matches EditOperation::DeleteText { position, text }
                            && position == start && text@ == selection_text(lines, start, end))
                    }
                }
                &&& !wraps && !dedents ==> {
                    &&& final(self).spot() == (
                        cl.update(y, typed_into(cl[y], x, c, auto_closing(c, cl[y], x))),
                        x + 1,
                        y,
                    )
                    &&& !old(self).selecting() ==> typing_recorded(old(self), final(self), typed, grouped)
                    &&& old(self).selecting() ==> {
                        &&& recorded_over(old(self), final(self))
                        &&& last matches EditOperation::BatchOperation { operations }
                        &&& last->operations@.len() == 2
                        &&& (last->operations@[0] matches EditOperation::DeleteText { position, text } && position
                            == start && text@ == selection_text(lines, start, end))
                        &&& last->operations@[1] == typed
                    }
                }
                &&& !wraps && old(self).selecting() ==> final(self).selection_start is None
                    && final(self).selection_end is None && !final(self).selection_mode
                &&& !old(self).selecting() ==> final(self).same_selection(old(self))
            }),
    {
        self.settle_cursor();
        match surround_pair(c) {
            Some(closing) => {
                if self.has_selection() {
                    self.surround_selection(c, closing);
                    return;
                }
            },
            None => {},
        }
        let ghost settled = *self;
        let removed = self.take_selection_for_replacement();
        if c == '}' && self.should_smart_dedent() {
            let ghost history = self.flushed_undo();
            match removed {
                Some(removal) => {
                    self.record_operation(removal, false);
                    proof {
                        lemma_capped_last(history, removal, UNDO_LIMIT as int);
                    }
                },
                None => {},
            }
            let ghost middle = *self;
            self.smart_dedent_tab();
            proof {
                if settled.selecting() {
                    assert(middle.flushed_undo() == middle.undo_stack@);
                    lemma_capped_second_last(middle.undo_stack@, self.undo_stack@.last(), UNDO_LIMIT as int);
                }
            }
            return;
        }
        let y = self.cursor_y;
        let x = self.cursor_x;
        let ghost cl = self.spot().0;
        proof {
            if settled.selecting() {
                lemma_removed_keeps_start(settled.spot().0, settled.selection_bounds().0, settled.selection_bounds().1);
            }
            assert(self.spot().0.len() == self.content@.len());
        }
        let current = line_text(&self.content[y]);
        proof {
            assert(self.content@[y as int]@ == cl[y as int]);
        }
        let closing = get_auto_closing_char(c, current.as_str(), x);
        let mut line: Vec<char> = Vec::new();
        self.content.set_and_swap(y, &mut line);
        let ghost original = line@;
        while line.len() < x
            invariant
                original.len() <= x ==> line@ == original + spaces(line@.len() - original.len()),
                original.len() > x ==> line@ == original,
                line@.len() <= x || line@ == original,
            decreases x - line@.len(),
        {
            line.push(' ');
            proof {
                assert(line@ =~= original + spaces(line@.len() - original.len()));
            }
        }
        proof {
            if original.len() <= x {
                assert(line@ =~= original + spaces(x - original.len()));
            }
        }
        line.insert(x, c);
        match closing {
            Some(k) => {
                line.insert(x + 1, k);
            },
            None => {},
        }
        proof {
            assert(line@ =~= typed_into(cl[y as int], x as int, c, auto_closing(c, cl[y as int], x as int)));
        }
        self.content.set(y, line);
        self.cursor_x = x + 1;
        self.modified = true;
        proof {
            assert(self.spot().0 =~= cl.update(y as int, typed_into(cl[y as int], x as int, c, auto_closing(c, cl[y as int], x as int))));
        }
        let operation = EditOperation::InsertChar { position: (x, y), char: c };
        let ghost history = self.flushed_undo();
        let ghost ready = *self;
        match removed {
            Some(removal) => {
                let batch = EditOperation::BatchOperation { operations: vec![removal, operation] };
                self.record_operation(batch, false);
                proof {
                    lemma_capped_last(history, batch, UNDO_LIMIT as int);
                }
            },
            None => {
                self.record_operation(operation, grouped);
            },
        }
    }
}


/// Whether a line, leading white space aside, begins with `//`.
pub open spec fn is_comment(line: Seq<char>) -> bool {
    starts(trim_start(line), seq!['/', '/'])
}

/// Whether every line from `first` to `last` that the file has is a comment.
pub open spec fn all_comments(lines: Seq<Seq<char>>, first: int, last: int) -> bool {
    forall|k: int| first <= k <= last && k < lines.len() ==> #[trigger] is_comment(lines[k])
}

/// A line with its comment marker taken off (`remove`) or put on: the
/// leading white space becomes as many spaces as it has bytes, then the
/// marker `// ` goes in front of the rest, or the `//` (with the space after
/// it, if there is one) comes off a line that has it.
pub open spec fn toggled(line: Seq<char>, remove: bool) -> Seq<char> {
    let lw = lead_white(line) as int;
    let rest = line.skip(lw);
    let pad = spaces(byte_len(line.take(lw)) as int);
    if remove {
        if is_comment(line) {
            pad + (if rest.len() > 2 && rest[2] == ' ' { rest.skip(3) } else { rest.skip(2) })
        } else {
            line
        }
    } else {
        pad + seq!['/', '/', ' '] + rest
    }
}

/// The lines from `first` to `last` toggled, the others as they were.
pub open spec fn toggled_range(lines: Seq<Seq<char>>, first: int, last: int, remove: bool) -> Seq<Seq<char>> {
    Seq::new(lines.len(), |k: int| if first <= k <= last { toggled(lines[k], remove) } else { lines[k] })
}

/// The lines among the `count` from `first` on that toggling changes.
pub open spec fn toggled_lines(lines: Seq<Seq<char>>, first: int, count: int, remove: bool) -> Seq<int>
    decreases count,
{
    if count <= 0 {
        Seq::empty()
    } else {
        let k = first + count - 1;
        let front = toggled_lines(lines, first, count - 1, remove);
        if toggled(lines[k], remove) != lines[k] { front.push(k) } else { front }
    }
}

/// How many lines toggling from `first` to `last` goes over: those of the
/// range that the file has.
pub open spec fn toggle_count(lines: Seq<Seq<char>>, first: int, last: int) -> int {
    let stop = if last + 1 < lines.len() { last + 1 } else { lines.len() as int };
    if stop > first { stop - first } else { 0 }
}

/// Whether `ops` replace, one by one, the given lines by their toggled text.
pub open spec fn replaces_lines(ops: Seq<EditOperation>, lines: Seq<Seq<char>>, rows: Seq<int>, remove: bool) -> bool {
    &&& ops.len() == rows.len()
    &&& forall|i: int| 0 <= i < ops.len() ==> (#[trigger] ops[i] matches EditOperation::ReplaceText {
        position,
        old_text,
        new_text,
    } && position == (0usize, rows[i] as usize) && old_text@ == lines[rows[i]] && new_text@ == toggled(
        lines[rows[i]],
        remove,
    ))
}

/// A column moved by `shift`, stopping at the start of the line.
pub open spec fn shifted_column(x: usize, shift: int) -> usize {
    if x + shift < 0 { 0 } else { (x + shift) as usize }
}

impl Tab {
    /// The first and last line of the selection.
    pub open spec fn comment_rows(&self) -> (int, int) {
        (self.selection_bounds().0.1 as int, self.selection_bounds().1.1 as int)
    }

    /// Whether toggling takes comment markers off: every selected line the
    /// file has is a comment.
    pub open spec fn uncommenting(&self) -> bool {
        all_comments(self.spot().0, self.comment_rows().0, self.comment_rows().1)
    }

    /// How far toggling moves the cursor and the selection: three columns,
    /// to the right when markers go on, to the left when they come off, and
    /// not at all when the cursor's line is not toggled.
    pub open spec fn comment_shift(&self) -> int {
        let (first, last) = self.comment_rows();
        if first <= self.cursor_y <= last && self.cursor_y < self.content@.len() {
            if self.uncommenting() { -3 } else { 3 }
        } else {
            0
        }
    }
}

/// Whether a line, leading white space aside, begins with `//`.
fn comment_line(line: &Vec<char>) -> (r: bool)
    ensures
        r == is_comment(line@),
{
    proof { assert(line@.skip(0) == line@); }
    let i = skip_white(line, 0);
    let r = line.len() - i >= 2 && line[i] == '/' && line[i + 1] == '/';
    proof {
        let t = line@.skip(i as int);
        assert(trim_start(line@) == t);
        if r {
            assert(t.take(2) =~= seq!['/', '/']);
        } else if t.len() >= 2 {
            assert(t.take(2)[0] == line@[i as int] && t.take(2)[1] == line@[i + 1]);
            assert(t.take(2) != seq!['/', '/']);
        }
    }
    r
}

/// Whether two lines hold the same characters.
fn same_chars(a: &Vec<char>, b: &Vec<char>) -> (r: bool)
    ensures
        r == (a@ == b@),
{
    if a.len() != b.len() {
        return false;
    }
    let mut i: usize = 0;
    while i < a.len()
        invariant
            a@.len() == b@.len(),
            i <= a@.len(),
            forall|j: int| 0 <= j < i ==> a@[j] == b@[j],
        decreases a.len() - i,
    {
        if a[i] != b[i] {
            return false;
        }
        i = i + 1;
    }
    proof { assert(a@ =~= b@); }
    true
}

/// A line with its comment marker toggled.
fn toggled_line(line: &Vec<char>, remove: bool) -> (r: Vec<char>)
    ensures
        r@ == toggled(line@, remove),
{
    if remove && !comment_line(line) {
        return copy_line(line);
    }
    proof { assert(line@.skip(0) == line@); }
    let lw = skip_white(line, 0);
    let mut out: Vec<char> = Vec::new();
    let mut i: usize = 0;
    proof { assert(out@ =~= spaces(byte_len(line@.take(0)) as int)); }
    while i < lw
        invariant
            i <= lw <= line@.len(),
            out@ == spaces(byte_len(line@.take(i as int)) as int),
        decreases lw - i,
    {
        let w = char_width(line[i]);
        let ghost before = out@.len();
        let mut j: usize = 0;
        while j < w
            invariant
                j <= w,
                out@ == spaces(before + j),
            decreases w - j,
        {
            out.push(' ');
            j = j + 1;
            proof { assert(out@ =~= spaces(before + j)); }
        }
        proof {
            assert(line@.take(i + 1).drop_last() == line@.take(i as int));
            assert(line@.take(i + 1).last() == line@[i as int]);
        }
        i = i + 1;
    }
    let from: usize = if !remove {
        out.push('/');
        out.push('/');
        out.push(' ');
        lw
    } else if line.len() - lw > 2 && line[lw + 2] == ' ' {
        lw + 3
    } else {
        lw + 2
    };
    let ghost head = out@;
    let mut k: usize = from;
    while k < line.len()
        invariant
            from <= k <= line@.len(),
            out@ == head + line@.subrange(from as int, k as int),
        decreases line.len() - k,
    {
        out.push(line[k]);
        k = k + 1;
        proof { assert(out@ =~= head + line@.subrange(from as int, k as int)); }
    }
    proof {
        let t = line@.skip(lw as int);
        if !remove {
            assert(line@.subrange(from as int, line@.len() as int) =~= t);
            assert(out@ =~= spaces(byte_len(line@.take(lw as int)) as int) + seq!['/', '/', ' '] + t);
        } else if t.len() > 2 && t[2] == ' ' {
            assert(line@.subrange(from as int, line@.len() as int) =~= t.skip(3));
        } else {
            assert(line@.subrange(from as int, line@.len() as int) =~= t.skip(2));
        }
    }
    out
}

impl Tab {
    /// Toggles the comment marker on every selected line: when each of them
    /// is already a comment, `//` (and one space after it) comes off each;
    /// otherwise `// ` goes on each, after its indentation. The indentation
    /// becomes as many spaces as it had bytes. The cursor and both ends of
    /// the selection move three columns with the marker when the cursor's
    /// line is among those toggled. The changed lines are recorded as one
    /// entry, which an undo takes back whole.
    pub fn toggle_selection_comment(&mut self)
        requires
            old(self).comment_shift() > 0 ==> old(self).cursor_x + 3 <= usize::MAX,
            match (old(self).selection_start, old(self).selection_end) {
                (Some(a), Some(b)) => {
                    &&& old(self).comment_shift() > 0 ==> a.0 + 3 <= usize::MAX && b.0 + 3 <= usize::MAX
                    &&& old(self).comment_shift() < 0 ==> a.0 >= 3 && b.0 >= 3
                },
                _ => true,
            },
        ensures
            ({
                let lines = old(self).spot().0;
                let (first, last) = old(self).comment_rows();
                let remove = old(self).uncommenting();
                let rows = toggled_lines(lines, first, toggle_count(lines, first, last), remove);
                &&& final(self).spot().0 == toggled_range(lines, first, last, remove)
                &&& rows.len() > 0 ==> {
                    &&& recorded_over(old(self), final(self))
                    &&& final(self).undo_stack@.last() matches EditOperation::BatchOperation { operations }
                        && replaces_lines(operations@, lines, rows, remove)
                }
                &&& rows.len() == 0 ==> {
                    &&& final(self).undo_stack@ == old(self).undo_stack@
                    &&& final(self).redo_stack@ == old(self).redo_stack@
                    &&& final(self).char_insert_group@ == old(self).char_insert_group@
                }
            }),
            final(self).modified,
            final(self).cursor_y == old(self).cursor_y,
            final(self).cursor_x == shifted_column(old(self).cursor_x, old(self).comment_shift()),
            final(self).selection_mode == old(self).selection_mode,
            match (old(self).selection_start, old(self).selection_end) {
                (Some(a), Some(b)) => {
                    &&& final(self).selection_start == Some(((a.0 + old(self).comment_shift()) as usize, a.1))
                    &&& final(self).selection_end == Some(((b.0 + old(self).comment_shift()) as usize, b.1))
                },
                _ => {
                    &&& final(self).selection_start == old(self).selection_start
                    &&& final(self).selection_end == old(self).selection_end
                },
            },
    {
        let ghost lines = self.spot().0;
        let (s, e) = self.get_normalized_selection();
        let first = s.1;
        let last = e.1;
        let mut all = true;
        let mut k: usize = first;
        while k < self.content.len() && k <= last
            invariant
                self.spot().0 == lines,
                first <= k,
                k == first || (k <= last + 1 && k <= lines.len()),
                all == (forall|j: int| first <= j < k ==> #[trigger] is_comment(lines[j])),
            decreases self.content.len() - k,
        {
            proof { assert(lines[k as int] == self.content@[k as int]@); }
            if !comment_line(&self.content[k]) {
                all = false;
            }
            k = k + 1;
        }
        proof {
            assert(all == all_comments(lines, first as int, last as int));
        }
        let remove = all;
        let in_range = first <= self.cursor_y && self.cursor_y <= last && self.cursor_y < self.content.len();
        let ghost shift = self.comment_shift();
        let ghost before = *self;
        let mut ops: Vec<EditOperation> = Vec::new();
        let mut k: usize = first;
        while k < self.content.len() && k <= last
            invariant
                self.content@.len() == lines.len(),
                first <= k,
                k == first || (k <= last + 1 && k <= lines.len()),
                forall|j: int| 0 <= j < lines.len() ==> #[trigger] self.content@[j]@ == (if first <= j < k {
                    toggled(lines[j], remove)
                } else {
                    lines[j]
                }),
                replaces_lines(ops@, lines, toggled_lines(lines, first as int, k - first, remove), remove),
                self.cursor_x == before.cursor_x,
                self.cursor_y == before.cursor_y,
                self.modified == before.modified,
                self.undo_stack == before.undo_stack,
                self.redo_stack == before.redo_stack,
                self.char_insert_group == before.char_insert_group,
                self.selection_start == before.selection_start,
                self.selection_end == before.selection_end,
                self.selection_mode == before.selection_mode,
            decreases self.content.len() - k,
        {
            let new_line = toggled_line(&self.content[k], remove);
            let changed = !same_chars(&new_line, &self.content[k]);
            let ghost rows_before = toggled_lines(lines, first as int, k - first, remove);
            proof {
                assert(k + 1 - first - 1 == k - first);
                assert(toggled_lines(lines, first as int, k + 1 - first, remove) == if changed {
                    rows_before.push(k as int)
                } else {
                    rows_before
                });
            }
            if changed {
                let op = EditOperation::ReplaceText {
                    position: (0, k),
                    old_text: line_text(&self.content[k]),
                    new_text: line_text(&new_line),
                };
                ops.push(op);
                self.content.set(k, new_line);
            }
            k = k + 1;
        }
        proof {
            assert(self.spot().0 =~= toggled_range(lines, first as int, last as int, remove));
        }
        if in_range {
            if remove {
                self.cursor_x = if self.cursor_x >= 3 { self.cursor_x - 3 } else { 0 };
            } else {
                self.cursor_x = self.cursor_x + 3;
            }
        }
        match (self.selection_start, self.selection_end) {
            (Some(a), Some(b)) => {
                if in_range {
                    if remove {
                        self.selection_start = Some((a.0 - 3, a.1));
                        self.selection_end = Some((b.0 - 3, b.1));
                    } else {
                        self.selection_start = Some((a.0 + 3, a.1));
                        self.selection_end = Some((b.0 + 3, b.1));
                    }
                }
            },
            _ => {},
        }
        self.modified = true;
        if ops.len() > 0 {
            let ghost mid = *self;
            let batch = EditOperation::BatchOperation { operations: ops };
            self.record_operation(batch, false);
            proof {
                assert(self.undo_stack@.len() > 0);
            }
        }
    }
}


impl Tab {
    /// Toggles the comment marker on the cursor's line: a comment loses its
    /// `//` (and one space after it), any other line gets `// ` after its
    /// indentation, which becomes as many spaces as it had bytes. The cursor
    /// moves three columns with the marker. The change is recorded as one
    /// replacement of the line. Past the last line nothing happens.
    pub fn toggle_line_comment(&mut self)
        requires
            old(self).cursor_y < old(self).content@.len() && !is_comment(old(self).spot().0[old(
                self,
            ).cursor_y as int]) ==> old(self).cursor_x + 3 <= usize::MAX,
        ensures
            old(self).cursor_y >= old(self).content@.len() ==> *final(self) == *old(self),
            old(self).cursor_y < old(self).content@.len() ==> ({
                let lines = old(self).spot().0;
                let y = old(self).cursor_y as int;
                let remove = is_comment(lines[y]);
                &&& final(self).spot().0 == lines.update(y, toggled(lines[y], remove))
                &&& final(self).cursor_y == old(self).cursor_y
                &&& final(self).cursor_x == shifted_column(old(self).cursor_x, if remove { -3 } else { 3 })
                &&& final(self).same_selection(old(self))
                &&& recorded_over(old(self), final(self))
                &&& final(self).undo_stack@.last() matches EditOperation::ReplaceText { position, old_text, new_text }
                    && position == (0usize, old(self).cursor_y) && old_text@ == lines[y] && new_text@ == toggled(
                    lines[y],
                    remove,
                )
            }),
    {
        if self.cursor_y >= self.content.len() {
            return;
        }
        let y = self.cursor_y;
        let remove = comment_line(&self.content[y]);
        let new_line = toggled_line(&self.content[y], remove);
        let op = EditOperation::ReplaceText {
            position: (0, y),
            old_text: line_text(&self.content[y]),
            new_text: line_text(&new_line),
        };
        self.content.set(y, new_line);
        if remove {
            self.cursor_x = if self.cursor_x >= 3 { self.cursor_x - 3 } else { 0 };
        } else {
            self.cursor_x = self.cursor_x + 3;
        }
        self.modified = true;
        self.record_operation(op, false);
        proof {
            assert(self.spot().0 =~= old(self).spot().0.update(y as int, toggled(old(self).spot().0[y as int], remove)));
            assert(self.undo_stack@.len() > 0);
        }
    }
}

impl Tab {
    /// Puts a copy of the cursor's line under it and moves the cursor down
    /// onto the copy. The copy is recorded as the line and a newline typed at
    /// the start of the next line. Past the last line nothing happens.
    pub fn duplicate_current_line(&mut self)
        ensures
            old(self).cursor_y >= old(self).content@.len() ==> *final(self) == *old(self),
            old(self).cursor_y < old(self).content@.len() ==> ({
                let lines = old(self).spot().0;
                let y = old(self).cursor_y as int;
                &&& final(self).spot().0 == lines.insert(y + 1, lines[y])
                &&& final(self).cursor_y == y + 1
                &&& final(self).cursor_x == old(self).cursor_x
                &&& final(self).same_selection(old(self))
                &&& recorded_over(old(self), final(self))
                &&& final(self).undo_stack@.last() matches EditOperation::InsertText { position, text }
                    && position == (0usize, (y + 1) as usize) && text@ == lines[y].push('\n')
            }),
    {
        if self.cursor_y >= self.content.len() {
            return;
        }
        let y = self.cursor_y;
        let mut text = line_text(&self.content[y]);
        push_char(&mut text, '\n');
        let copy = copy_line(&self.content[y]);
        let op = EditOperation::InsertText { position: (0, y + 1), text };
        self.content.insert(y + 1, copy);
        self.cursor_y = y + 1;
        self.modified = true;
        self.record_operation(op, false);
        proof {
            assert(self.spot().0 =~= old(self).spot().0.insert(y + 1, old(self).spot().0[y as int]));
            assert(self.undo_stack@.len() > 0);
        }
    }

    /// Empties the cursor's line down to its indentation and puts the cursor
    /// after it, where the typing goes. A line that is all indentation is
    /// left as it is. The cursor is first settled inside the file.
    pub fn change_line(&mut self)
        ensures
            ({
                let lines = settled_lines(old(self).spot().0);
                let y = settled_row(old(self).spot().0, old(self).cursor_y as int);
                let line = lines[y];
                let lw = lead_white(line) as int;
                &&& final(self).spot().0 == lines.update(y, line.take(lw))
                &&& final(self).cursor_y == y
                &&& final(self).cursor_x == lw
                &&& final(self).same_selection(old(self))
                &&& lw < line.len() ==> {
                    &&& recorded_over(old(self), final(self))
                    &&& final(self).undo_stack@.last() matches EditOperation::ReplaceText { position, old_text, new_text }
                        && position == (0usize, y as usize) && old_text@ == line && new_text@ == line.take(lw)
                }
                &&& lw == line.len() ==> {
                    &&& final(self).undo_stack == old(self).undo_stack
                    &&& final(self).redo_stack == old(self).redo_stack
                    &&& final(self).char_insert_group == old(self).char_insert_group
                    &&& final(self).modified == old(self).modified
                }
            }),
    {
        self.settle_cursor();
        let y = self.cursor_y;
        proof { assert(self.content@[y as int]@.skip(0) == self.content@[y as int]@); }
        let lw = skip_white(&self.content[y], 0);
        proof { crate::outline::lemma_lead_white_bound(self.content@[y as int]@); }
        self.cursor_x = lw;
        if lw == self.content[y].len() {
            proof {
                assert(self.content@[y as int]@.take(lw as int) =~= self.content@[y as int]@);
                assert(self.spot().0 =~= self.spot().0.update(y as int, self.content@[y as int]@.take(lw as int)));
            }
            return;
        }
        let old_text = line_text(&self.content[y]);
        let mut indent: Vec<char> = Vec::new();
        let mut i: usize = 0;
        while i < lw
            invariant
                y < self.content@.len(),
                i <= lw <= self.content@[y as int]@.len(),
                indent@ == self.content@[y as int]@.take(i as int),
            decreases lw - i,
        {
            indent.push(self.content[y][i]);
            i = i + 1;
            proof { assert(indent@ =~= self.content@[y as int]@.take(i as int)); }
        }
        let ghost before = self.spot().0;
        let op = EditOperation::ReplaceText { position: (0, y), old_text, new_text: line_text(&indent) };
        self.content.set(y, indent);
        self.modified = true;
        self.record_operation(op, false);
        proof {
            assert(self.spot().0 =~= before.update(y as int, before[y as int].take(lw as int)));
            assert(self.undo_stack@.len() > 0);
        }
    }
}

impl Tab {
    /// Deletes the cursor's line and puts the cursor at the start of the line
    /// that takes its place, or of the new last line. The only line of a file
    /// is emptied rather than deleted. The deletion is recorded as the line and
    /// its newline deleted where the cursor ends up.
    pub fn delete_current_line(&mut self)
        requires
            old(self).content@.len() >= 1,
            old(self).content@.len() >= 2 ==> old(self).cursor_y < old(self).content@.len(),
        ensures
            ({
                let lines = old(self).spot().0;
                let y = old(self).cursor_y as int;
                &&& final(self).cursor_x == 0
                &&& final(self).same_selection(old(self))
                &&& recorded_over(old(self), final(self))
                &&& lines.len() == 1 ==> {
                    &&& final(self).spot().0 == seq![Seq::<char>::empty()]
                    &&& final(self).cursor_y == old(self).cursor_y
                    &&& final(self).undo_stack@.last() matches EditOperation::ReplaceText { position, old_text, new_text }
                        && position == (0usize, 0usize) && old_text@ == lines[0] && new_text@.len() == 0
                }
                &&& lines.len() >= 2 ==> {
                    let row = if y < lines.len() - 1 { y } else { lines.len() - 2 };
                    &&& final(self).spot().0 == lines.remove(y)
                    &&& final(self).cursor_y == row
                    &&& final(self).undo_stack@.last() matches EditOperation::DeleteText { position, text }
                        && position == (0usize, row as usize) && text@ == lines[y].push('\n')
                }
            }),
    {
        if self.content.len() <= 1 {
            let old_text = line_text(&self.content[0]);
            self.content.set(0, Vec::new());
            self.cursor_x = 0;
            let op = EditOperation::ReplaceText { position: (0, 0), old_text, new_text: String::new() };
            self.modified = true;
            self.record_operation(op, false);
            proof {
                assert(self.spot().0 =~= seq![Seq::<char>::empty()]);
                assert(self.undo_stack@.len() > 0);
            }
        } else {
            let ghost lines = self.spot().0;
            let y = self.cursor_y;
            let deleted = self.content.remove(y);
            if self.cursor_y >= self.content.len() {
                self.cursor_y = self.content.len() - 1;
            }
            self.cursor_x = 0;
            let mut text = line_text(&deleted);
            push_char(&mut text, '\n');
            let op = EditOperation::DeleteText { position: (0, self.cursor_y), text };
            self.modified = true;
            self.record_operation(op, false);
            proof {
                assert(self.spot().0 =~= lines.remove(y as int));
                assert(self.undo_stack@.len() > 0);
            }
        }
    }
}

/// A copy of a line.
fn copy_line(line: &Vec<char>) -> (r: Vec<char>)
    ensures
        r@ == line@,
{
    let mut out: Vec<char> = Vec::new();
    let mut i: usize = 0;
    while i < line.len()
        invariant
            i <= line@.len(),
            out@ == line@.take(i as int),
        decreases line.len() - i,
    {
        out.push(line[i]);
        i = i + 1;
        proof { assert(out@ =~= line@.take(i as int)); }
    }
    proof { assert(out@ =~= line@); }
    out
}

/// The lines with line `z` and the one after it changed places.
pub open spec fn swapped(lines: Seq<Seq<char>>, z: int) -> Seq<Seq<char>> {
    lines.update(z, lines[z + 1]).update(z + 1, lines[z])
}

/// Whether two edits record lines `z` and `z + 1` changing places: each
/// line replaced by the other.
pub open spec fn swaps_lines(ops: Seq<EditOperation>, lines: Seq<Seq<char>>, z: int) -> bool {
    &&& ops.len() == 2
    &&& ops[0] matches EditOperation::ReplaceText { position, old_text, new_text } && position == (
        0usize,
        z as usize,
    ) && old_text@ == lines[z] && new_text@ == lines[z + 1]
    &&& ops[1] matches EditOperation::ReplaceText { position, old_text, new_text } && position == (
        0usize,
        (z + 1) as usize,
    ) && old_text@ == lines[z + 1] && new_text@ == lines[z]
}

impl Tab {
    /// Swaps lines `z` and `z + 1`, recording each as replaced by the other.
    fn swap_down(&mut self, z: usize)
        requires
            z + 1 < old(self).content@.len(),
        ensures
            final(self).spot().0 == swapped(old(self).spot().0, z as int),
            final(self).cursor_x == old(self).cursor_x,
            final(self).cursor_y == old(self).cursor_y,
            final(self).same_selection(old(self)),
            recorded_over(old(self), final(self)),
            final(self).undo_stack@.last() matches EditOperation::BatchOperation { operations }
                && swaps_lines(operations@, old(self).spot().0, z as int),
    {
        let _n = self.content.len();
        let upper = copy_line(&self.content[z]);
        let lower = copy_line(&self.content[z + 1]);
        let mut ops: Vec<EditOperation> = Vec::new();
        ops.push(EditOperation::ReplaceText {
            position: (0, z),
            old_text: line_text(&upper),
            new_text: line_text(&lower),
        });
        ops.push(EditOperation::ReplaceText {
            position: (0, z + 1),
            old_text: line_text(&lower),
            new_text: line_text(&upper),
        });
        let ghost lines = self.spot().0;
        self.content.set(z, lower);
        self.content.set(z + 1, upper);
        self.modified = true;
        self.record_operation(EditOperation::BatchOperation { operations: ops }, false);
        proof {
            assert(self.spot().0 =~= swapped(lines, z as int));
            assert(self.undo_stack@.len() > 0);
        }
    }

    /// Moves the cursor's line above the one before it, the cursor going
    /// with it. On the first line, or past the last, nothing happens.
    pub fn move_current_line_up(&mut self)
        ensures
            old(self).cursor_y == 0 || old(self).cursor_y >= old(self).content@.len() ==> *final(self) == *old(self),
            0 < old(self).cursor_y < old(self).content@.len() ==> {
                &&& final(self).spot().0 == swapped(old(self).spot().0, old(self).cursor_y - 1)
                &&& final(self).cursor_y == old(self).cursor_y - 1
                &&& final(self).cursor_x == old(self).cursor_x
                &&& final(self).same_selection(old(self))
                &&& recorded_over(old(self), final(self))
                &&& final(self).undo_stack@.last() matches EditOperation::BatchOperation { operations }
                    && swaps_lines(operations@, old(self).spot().0, old(self).cursor_y - 1)
            },
    {
        if self.cursor_y == 0 || self.cursor_y >= self.content.len() {
            return;
        }
        let z = self.cursor_y - 1;
        self.swap_down(z);
        self.cursor_y = z;
    }

    /// Moves the cursor's line below the one after it, the cursor going with
    /// it. On the last line, or past it, nothing happens.
    pub fn move_current_line_down(&mut self)
        ensures
            old(self).cursor_y + 1 >= old(self).content@.len() ==> *final(self) == *old(self),
            old(self).cursor_y + 1 < old(self).content@.len() ==> {
                &&& final(self).spot().0 == swapped(old(self).spot().0, old(self).cursor_y as int)
                &&& final(self).cursor_y == old(self).cursor_y + 1
                &&& final(self).cursor_x == old(self).cursor_x
                &&& final(self).same_selection(old(self))
                &&& recorded_over(old(self), final(self))
                &&& final(self).undo_stack@.last() matches EditOperation::BatchOperation { operations }
                    && swaps_lines(operations@, old(self).spot().0, old(self).cursor_y as int)
            },
    {
        if self.cursor_y >= self.content.len() || self.cursor_y + 1 >= self.content.len() {
            return;
        }
        let z = self.cursor_y;
        self.swap_down(z);
        self.cursor_y = z + 1;
    }
}

/// A line without its trailing white space.
fn trim_end_line(line: &Vec<char>) -> (r: Vec<char>)
    ensures
        r@ == trimmed_end(line@),
{
    let mut k: usize = line.len();
    while k > 0 && is_white_char(line[k - 1])
        invariant
            k <= line@.len(),
            forall|j: int| k <= j < line@.len() ==> is_white(#[trigger] line@[j]),
        decreases k,
    {
        k = k - 1;
    }
    proof { lemma_trimmed_end(line@, k as int); }
    let mut out: Vec<char> = Vec::new();
    let mut i: usize = 0;
    while i < k
        invariant
            k <= line@.len(),
            i <= k,
            out@ == line@.take(i as int),
        decreases k - i,
    {
        out.push(line[i]);
        i = i + 1;
        proof { assert(out@ =~= line@.take(i as int)); }
    }
    out
}

/// A line without white space at either end.
fn trim_line(line: &Vec<char>) -> (r: Vec<char>)
    ensures
        r@ == trim(line@),
{
    proof { assert(line@.skip(0) == line@); }
    let start = skip_white(line, 0);
    let mut rest: Vec<char> = Vec::new();
    let mut i: usize = start;
    while i < line.len()
        invariant
            start <= i <= line@.len(),
            rest@ == line@.subrange(start as int, i as int),
        decreases line.len() - i,
    {
        rest.push(line[i]);
        i = i + 1;
        proof { assert(rest@ =~= line@.subrange(start as int, i as int)); }
    }
    proof { assert(rest@ =~= trim_start(line@)); }
    trim_end_line(&rest)
}

/// The lines from `first` to `k` joined into one: the first without its
/// trailing white space, then each later one trimmed, after a space, those
/// that trim to nothing left out.
pub open spec fn joined_upto(lines: Seq<Seq<char>>, first: int, k: int) -> Seq<char>
    decreases k - first,
{
    if k <= first {
        trimmed_end(lines[first])
    } else {
        let front = joined_upto(lines, first, k - 1);
        let piece = trim(lines[k]);
        if piece.len() == 0 {
            front
        } else if front.len() == 0 {
            piece
        } else {
            front + seq![' '] + piece
        }
    }
}

impl Tab {
    /// The lines a selection covers, a selection ending at the very start of
    /// a later line not counting that line; the cursor's line without one.
    pub open spec fn selected_rows(&self) -> (int, int) {
        if self.selecting() {
            let (start, end) = self.selection_bounds();
            (start.1 as int, if end.0 == 0 && end.1 > start.1 { end.1 - 1 } else { end.1 as int })
        } else {
            (self.cursor_y as int, self.cursor_y as int)
        }
    }

    /// The first and last line the selection covers.
    pub fn selected_line_range(&self) -> (r: (usize, usize))
        ensures
            r.0 == self.selected_rows().0,
            r.1 == self.selected_rows().1,
    {
        if self.has_selection() {
            let (start, end) = self.get_normalized_selection();
            let last = if end.0 == 0 && end.1 > start.1 { end.1 - 1 } else { end.1 };
            return (start.1, last);
        }
        (self.cursor_y, self.cursor_y)
    }

    /// The tab as `join_lines` sees it once the cursor is settled.
    pub open spec fn settled(&self) -> Tab {
        Tab {
            content: self.content,
            cursor_x: self.cursor_x,
            cursor_y: settled_row(self.spot().0, self.cursor_y as int) as usize,
            modified: self.modified,
            undo_stack: self.undo_stack,
            redo_stack: self.redo_stack,
            char_insert_group: self.char_insert_group,
            selection_start: self.selection_start,
            selection_end: self.selection_end,
            selection_mode: self.selection_mode,
        }
    }

    /// The lines `join_lines` joins: those the selection covers, or the
    /// cursor's line and the next; at least two.
    pub open spec fn join_rows(&self) -> (int, int) {
        let (first, last) = self.settled().selected_rows();
        (first, if last > first { last } else { first + 1 })
    }

    /// Joins the selected lines, or the cursor's line and the next, into one:
    /// the first keeps its indentation, each later one comes trimmed after a
    /// space, and lines that trim to nothing add nothing. The cursor goes to
    /// the seam after the first line's text and the selection is cleared. The
    /// join is one recorded replacement, which one undo takes back. When the
    /// lines to join run past the end of the file nothing changes.
    pub fn join_lines(&mut self)
        requires
            ({
                let (first, last) = old(self).settled().selected_rows();
                last > first || first < usize::MAX
            }),
            ({
                let lines = settled_lines(old(self).spot().0);
                let (first, last) = old(self).join_rows();
                let end = (lines[last].len() as usize, last as usize);
                last < lines.len() && span_text(lines, (0, first as usize), end) != joined_upto(lines, first, last)
                    ==> span_replaceable(lines, (0, first as usize), end, joined_upto(lines, first, last))
            }),
        ensures
            ({
                let lines = settled_lines(old(self).spot().0);
                let (first, last) = old(self).join_rows();
                let end = (lines[last].len() as usize, last as usize);
                let joined = joined_upto(lines, first, last);
                &&& last >= lines.len() ==> {
                    &&& final(self).spot().0 == lines
                    &&& final(self).undo_stack == old(self).undo_stack
                    &&& final(self).modified == old(self).modified
                }
                &&& last < lines.len() ==> {
                    &&& final(self).spot().0 == (if span_text(lines, (0, first as usize), end) == joined {
                        lines
                    } else {
                        span_replaced(lines, (0, first as usize), end, joined).0
                    })
                    &&& final(self).cursor_y == first
                    &&& final(self).cursor_x == trimmed_end(lines[first]).len()
                    &&& final(self).selection_start is None
                    &&& final(self).selection_end is None
                    &&& !final(self).selection_mode
                    &&& span_text(lines, (0, first as usize), end) != joined ==> {
                        &&& recorded_over(old(self), final(self))
                        &&& final(self).undo_stack@.last() matches EditOperation::ReplaceText {
                            position,
                            old_text,
                            new_text,
                        } && position == (0usize, first as usize) && old_text@ == span_text(
                            lines,
                            (0, first as usize),
                            end,
                        ) && new_text@ == joined
                    }
                }
            }),
    {
        self.settle_cursor();
        proof { assert(self.selected_rows() == old(self).settled().selected_rows()); }
        let (first, last) = self.selected_line_range();
        let last = if last > first { last } else { first + 1 };
        if last >= self.content.len() {
            return;
        }
        let ghost lines = self.spot().0;
        let head = trim_end_line(&self.content[first]);
        let join_column = head.len();
        let mut joined: Vec<char> = head;
        let mut k: usize = first + 1;
        while k <= last
            invariant
                first < k <= last + 1,
                last < lines.len(),
                last < usize::MAX,
                self.spot().0 == lines,
                joined@ == joined_upto(lines, first as int, k - 1),
            decreases last + 1 - k,
        {
            proof { assert(self.content@[k as int]@ == lines[k as int]); }
            let piece = trim_line(&self.content[k]);
            if piece.len() > 0 {
                if joined.len() > 0 {
                    joined.push(' ');
                }
                let mut i: usize = 0;
                let ghost front = joined@;
                while i < piece.len()
                    invariant
                        i <= piece@.len(),
                        joined@ == front + piece@.take(i as int),
                    decreases piece.len() - i,
                {
                    joined.push(piece[i]);
                    i = i + 1;
                    proof { assert(joined@ =~= front + piece@.take(i as int)); }
                }
                proof { assert(piece@.take(piece@.len() as int) =~= piece@); }
            }
            k = k + 1;
        }
        let end_column = self.content[last].len();
        let text = line_text(&joined);
        self.replace_span((0, first), (end_column, last), text.as_str());
        self.selection_start = None;
        self.selection_end = None;
        self.selection_mode = false;
        self.cursor_y = first;
        self.cursor_x = join_column;
    }
}

impl Tab {
    /// Moves the cursor to the end of its line, settled inside the file. The
    /// characters typed last are closed into one undo entry and the selection
    /// is dropped, as any move without extending the selection does.
    pub fn move_to_line_end(&mut self)
        ensures
            ({
                let lines = settled_lines(old(self).spot().0);
                let y = settled_row(old(self).spot().0, old(self).cursor_y as int);
                &&& final(self).spot() == (lines, lines[y].len() as int, y)
                &&& final(self).undo_stack@ == old(self).flushed_undo()
                &&& final(self).char_insert_group@.len() == 0
                &&& final(self).redo_stack@ == old(self).redo_stack@
                &&& final(self).modified == old(self).modified
                &&& final(self).selection_start is None
                &&& final(self).selection_end is None
                &&& !final(self).selection_mode
            }),
    {
        self.settle_cursor();
        let y = self.cursor_y;
        let n = self.content[y].len();
        proof { assert(self.spot().0[y as int].len() == n); }
        self.flush_char_group();
        self.selection_start = None;
        self.selection_end = None;
        self.selection_mode = false;
        self.cursor_x = n;
    }

    /// Starts a line under the cursor's line and puts the cursor on it,
    /// indented as a line broken at the end of the cursor's line is.
    pub fn open_line_below(&mut self)
        ensures
            ({
                let lines = settled_lines(old(self).spot().0);
                let y = settled_row(old(self).spot().0, old(self).cursor_y as int);
                let x = lines[y].len() as int;
                let indent = auto_indent(lines[y], x);
                &&& final(self).spot() == (broken_at(lines, x, y, indent), indent.len() as int, y + 1)
                &&& recorded_over(old(self), final(self))
                &&& typed_break(final(self).undo_stack@.last(), x, y, indent)
                &&& final(self).selection_start is None
                &&& final(self).selection_end is None
                &&& !final(self).selection_mode
            }),
    {
        self.move_to_line_end();
        proof {
            assert(settled_lines(self.spot().0) == self.spot().0);
        }
        self.insert_newline();
    }
}

impl Tab {
    /// Deletes the character under the cursor, or the selection, as the
    /// Delete key does, but never at or past the end of a line: there it
    /// stops rather than pulling the next line up.
    pub fn delete_char_at_cursor(&mut self)
        ensures
            ({
                let lines = settled_lines(old(self).spot().0);
                let x = old(self).cursor_x as int;
                let y = settled_row(old(self).spot().0, old(self).cursor_y as int);
                let line = lines[y];
                &&& x >= line.len() ==> final(self).spot() == (lines, x, y) && final(self).only_text_differs(old(self))
                &&& x < line.len() && old(self).selecting() ==> final(self).took_selection(lines, x, y, old(self))
                &&& x < line.len() && !old(self).selecting() ==> {
                    &&& final(self).spot() == (lines.update(y, line.remove(x)), x, y)
                    &&& final(self).undo_stack@.last() == (EditOperation::DeleteChar {
                        position: (x as usize, y as usize),
                        char: line[x],
                    })
                    &&& recorded(old(self), final(self))
                }
            }),
    {
        self.settle_cursor();
        let y = self.cursor_y;
        if self.cursor_x >= self.content[y].len() {
            return;
        }
        proof {
            assert(settled_lines(self.spot().0) == self.spot().0);
        }
        self.delete_forward();
    }
}

impl Tab {
    /// Starts a line above the cursor's line and puts the cursor on it: on
    /// the first line a blank line goes in at the top; elsewhere the line is
    /// opened under the line above, so it takes that line's indentation.
    pub fn open_line_above(&mut self)
        ensures
            ({
                let lines = settled_lines(old(self).spot().0);
                let y = settled_row(old(self).spot().0, old(self).cursor_y as int);
                &&& recorded_over(old(self), final(self))
                &&& y == 0 ==> {
                    &&& final(self).spot() == (lines.insert(0, Seq::<char>::empty()), 0int, 0int)
                    &&& final(self).same_selection(old(self))
                    &&& final(self).undo_stack@.last() matches EditOperation::InsertText { position, text }
                        && position == (0usize, 0usize) && text@ == seq!['\n']
                }
                &&& y > 0 ==> {
                    let x = lines[y - 1].len() as int;
                    let indent = auto_indent(lines[y - 1], x);
                    &&& final(self).spot() == (broken_at(lines, x, y - 1, indent), indent.len() as int, y)
                    &&& typed_break(final(self).undo_stack@.last(), x, y - 1, indent)
                    &&& final(self).selection_start is None
                    &&& final(self).selection_end is None
                    &&& !final(self).selection_mode
                }
            }),
    {
        self.settle_cursor();
        if self.cursor_y == 0 {
            self.flush_char_group();
            let ghost lines = self.spot().0;
            self.content.insert(0, Vec::new());
            self.cursor_x = 0;
            let mut text = String::new();
            push_char(&mut text, '\n');
            self.modified = true;
            self.record_operation(EditOperation::InsertText { position: (0, 0), text }, false);
            proof {
                assert(self.spot().0 =~= lines.insert(0, Seq::<char>::empty()));
                assert(self.undo_stack@.len() > 0);
            }
            return;
        }
        self.cursor_y = self.cursor_y - 1;
        self.open_line_below();
    }
}

impl Tab {
    /// This tab with a selection from `start` to `end`.
    pub open spec fn with_selection(&self, start: (usize, usize), end: (usize, usize)) -> Tab {
        Tab {
            content: self.content,
            cursor_x: self.cursor_x,
            cursor_y: self.cursor_y,
            modified: self.modified,
            undo_stack: self.undo_stack,
            redo_stack: self.redo_stack,
            char_insert_group: self.char_insert_group,
            selection_start: Some(start),
            selection_end: Some(end),
            selection_mode: true,
        }
    }

    /// Deletes everything between two positions as one recorded edit, as
    /// deleting a selection between them does; nothing happens when they are
    /// the same position.
    pub fn delete_span(&mut self, start: (usize, usize), end: (usize, usize))
        ensures
            start == end ==> *final(self) == *old(self),
            start != end ==> final(self).took_selection(
                old(self).spot().0,
                old(self).cursor_x as int,
                old(self).cursor_y as int,
                &old(self).with_selection(start, end),
            ),
    {
        if start.0 == end.0 && start.1 == end.1 {
            return;
        }
        self.selection_start = Some(start);
        self.selection_end = Some(end);
        self.selection_mode = true;
        self.delete_selected_text();
    }

    /// Deletes back to the start of the word before the cursor, or the
    /// selection when there is one.
    pub fn delete_word_left(&mut self)
        requires
            old(self).cursor_y < old(self).content@.len() ==> byte_len(old(self).spot().0[old(self).cursor_y as int])
                <= usize::MAX,
        ensures
            ({
                let lines = old(self).spot().0;
                let here = (old(self).cursor_x, old(self).cursor_y);
                let b = prev_boundary(lines, old(self).cursor_x as int, old(self).cursor_y as int);
                let target = (b.0 as usize, b.1 as usize);
                &&& old(self).selecting() ==> final(self).took_selection(lines, here.0 as int, here.1 as int, old(self))
                &&& !old(self).selecting() && target == here ==> *final(self) == *old(self)
                &&& !old(self).selecting() && target != here ==> final(self).took_selection(
                    lines,
                    here.0 as int,
                    here.1 as int,
                    &old(self).with_selection(target, here),
                )
            }),
    {
        if self.has_selection() {
            self.delete_selected_text();
            return;
        }
        let target = self.find_prev_word_boundary();
        let here = (self.cursor_x, self.cursor_y);
        self.delete_span(target, here);
    }

    /// Deletes forward to the start of the next word, or the selection when
    /// there is one.
    pub fn delete_word_right(&mut self)
        requires
            old(self).cursor_y < old(self).content@.len() ==> byte_len(old(self).spot().0[old(self).cursor_y as int])
                <= usize::MAX,
        ensures
            ({
                let lines = old(self).spot().0;
                let here = (old(self).cursor_x, old(self).cursor_y);
                let b = next_boundary(lines, old(self).cursor_x as int, old(self).cursor_y as int);
                let target = (b.0 as usize, b.1 as usize);
                &&& old(self).selecting() ==> final(self).took_selection(lines, here.0 as int, here.1 as int, old(self))
                &&& !old(self).selecting() && target == here ==> *final(self) == *old(self)
                &&& !old(self).selecting() && target != here ==> final(self).took_selection(
                    lines,
                    here.0 as int,
                    here.1 as int,
                    &old(self).with_selection(here, target),
                )
            }),
    {
        if self.has_selection() {
            self.delete_selected_text();
            return;
        }
        let here = (self.cursor_x, self.cursor_y);
        let target = self.find_next_word_boundary();
        self.delete_span(here, target);
    }

    /// Deletes from the cursor to the end of its line. At the end of the line
    /// the newline goes instead, joining the next line on, so two presses
    /// empty a line and close the gap.
    pub fn kill_to_line_end(&mut self)
        ensures
            ({
                let lines = settled_lines(old(self).spot().0);
                let y = settled_row(old(self).spot().0, old(self).cursor_y as int);
                let x = old(self).cursor_x;
                let line = lines[y];
                let mark = old(self).with_selection((x, y as usize), (line.len() as usize, y as usize));
                &&& x != line.len() ==> final(self).took_selection(lines, line.len() as int, y, &mark)
                &&& x == line.len() && y + 1 < lines.len() ==> {
                    &&& final(self).spot() == (lines.update(y, line + lines[y + 1]).remove(y + 1), x as int, y)
                    &&& (final(self).undo_stack@.last() matches EditOperation::DeleteNewline { position, merged_content }
                        && position == (line.len() as usize, y as usize) && merged_content@ == lines[y + 1])
                    &&& recorded_over(old(self), final(self))
                }
                &&& x == line.len() && y + 1 >= lines.len() ==> {
                    &&& final(self).spot() == (lines, x as int, y)
                    &&& final(self).undo_stack@ == old(self).flushed_undo()
                    &&& final(self).modified == old(self).modified
                }
                &&& x == line.len() ==> final(self).selection_start is None && final(self).selection_end is None
                    && !final(self).selection_mode
            }),
    {
        self.settle_cursor();
        let x = self.cursor_x;
        let y = self.cursor_y;
        let len = self.content[y].len();
        proof { assert(self.spot().0[y as int].len() == len); }
        self.flush_char_group();
        self.selection_start = Some((x, y));
        self.selection_end = Some((len, y));
        self.selection_mode = true;
        self.cursor_x = len;
        if self.has_selection() {
            self.delete_selected_text();
            return;
        }
        self.selection_start = None;
        self.selection_end = None;
        self.selection_mode = false;
        self.delete_forward();
    }

    /// Deletes from the start of the cursor's line up to the cursor. At the
    /// start of a line nothing is deleted: the line before is not pulled up.
    pub fn kill_to_line_start(&mut self)
        ensures
            ({
                let lines = settled_lines(old(self).spot().0);
                let y = settled_row(old(self).spot().0, old(self).cursor_y as int);
                let x = old(self).cursor_x;
                let mark = old(self).with_selection((x, y as usize), (0, y as usize));
                &&& x != 0 ==> final(self).took_selection(lines, 0, y, &mark)
                &&& x == 0 ==> {
                    &&& final(self).spot() == (lines, 0int, y)
                    &&& final(self).undo_stack@ == old(self).flushed_undo()
                    &&& final(self).char_insert_group@.len() == 0
                    &&& final(self).modified == old(self).modified
                    &&& final(self).selection_start is None
                    &&& final(self).selection_end is None
                    &&& !final(self).selection_mode
                }
            }),
    {
        self.settle_cursor();
        let x = self.cursor_x;
        let y = self.cursor_y;
        self.flush_char_group();
        self.selection_start = Some((x, y));
        self.selection_end = Some((0, y));
        self.selection_mode = true;
        self.cursor_x = 0;
        if self.has_selection() {
            self.delete_selected_text();
            return;
        }
        self.selection_start = None;
        self.selection_end = None;
        self.selection_mode = false;
    }
}

/// How wide a line is, or nothing for a line the file does not have.
pub open spec fn line_width(lines: Seq<Seq<char>>, y: usize) -> usize {
    if y < lines.len() { lines[y as int].len() as usize } else { 0 }
}

/// A line with one level of indentation taken off: four leading spaces, or
/// else one leading tab; a line with neither as it is.
pub open spec fn unindented(line: Seq<char>) -> Seq<char> {
    if starts(line, seq![' ', ' ', ' ', ' ']) {
        line.skip(4)
    } else if starts(line, seq!['\t']) {
        line.skip(1)
    } else {
        line
    }
}

/// The lines from `first` to `last` unindented, the others as they were.
pub open spec fn unindented_range(lines: Seq<Seq<char>>, first: int, last: int) -> Seq<Seq<char>> {
    Seq::new(lines.len(), |k: int| if first <= k <= last { unindented(lines[k]) } else { lines[k] })
}

/// The lines among the `count` from `first` on that unindenting changes.
pub open spec fn unindented_lines(lines: Seq<Seq<char>>, first: int, count: int) -> Seq<int>
    decreases count,
{
    if count <= 0 {
        Seq::empty()
    } else {
        let k = first + count - 1;
        let front = unindented_lines(lines, first, count - 1);
        if unindented(lines[k]) != lines[k] { front.push(k) } else { front }
    }
}

/// Whether `ops` replace, one by one, the given lines by their unindented text.
pub open spec fn replaces_unindented(ops: Seq<EditOperation>, lines: Seq<Seq<char>>, rows: Seq<int>) -> bool {
    &&& ops.len() == rows.len()
    &&& forall|i: int| 0 <= i < ops.len() ==> (#[trigger] ops[i] matches EditOperation::ReplaceText {
        position,
        old_text,
        new_text,
    } && position == (0usize, rows[i] as usize) && old_text@ == lines[rows[i]] && new_text@ == unindented(
        lines[rows[i]],
    ))
}

/// A column moved four to the left, stopping at the start of the line.
pub open spec fn four_left(x: usize) -> usize {
    if x >= 4 { (x - 4) as usize } else { 0 }
}

/// A line with one level of indentation taken off.
fn unindented_line(line: &Vec<char>) -> (r: Vec<char>)
    ensures
        r@ == unindented(line@),
{
    let n = line.len();
    let from: usize = if n >= 4 && line[0] == ' ' && line[1] == ' ' && line[2] == ' ' && line[3] == ' ' {
        4
    } else if n >= 1 && line[0] == '\t' {
        1
    } else {
        0
    };
    proof {
        if from == 4 {
            assert(line@.take(4) =~= seq![' ', ' ', ' ', ' ']);
        } else if n >= 4 {
            assert(line@.take(4)[0] == line@[0] && line@.take(4)[1] == line@[1]);
            assert(line@.take(4)[2] == line@[2] && line@.take(4)[3] == line@[3]);
        }
        if from == 1 {
            assert(line@.take(1) =~= seq!['\t']);
        } else if n >= 1 {
            assert(line@.take(1)[0] == line@[0]);
        }
    }
    let mut out: Vec<char> = Vec::new();
    let mut k: usize = from;
    while k < n
        invariant
            n == line@.len(),
            from <= k <= n,
            out@ == line@.subrange(from as int, k as int),
        decreases n - k,
    {
        out.push(line[k]);
        k = k + 1;
        proof { assert(out@ =~= line@.subrange(from as int, k as int)); }
    }
    proof { assert(out@ =~= line@.skip(from as int)); assert(line@.skip(0) =~= line@); }
    out
}

impl Tab {
    /// Widens a selection to whole lines: the end it started from goes to the
    /// start of its line, or the end of it when the selection faces up, and
    /// the other end goes the other way. Without a selection nothing happens.
    pub fn snap_selection_to_lines(&mut self)
        ensures
            match (old(self).selection_start, old(self).selection_end) {
                (Some(a), Some(b)) => {
                    let lines = old(self).spot().0;
                    &&& final(self).spot() == old(self).spot()
                    &&& final(self).undo_stack == old(self).undo_stack
                    &&& final(self).redo_stack == old(self).redo_stack
                    &&& final(self).char_insert_group == old(self).char_insert_group
                    &&& final(self).modified == old(self).modified
                    &&& final(self).selection_mode
                    &&& a.1 <= b.1 ==> final(self).selection_start == Some((0usize, a.1)) && final(self).selection_end
                        == Some((line_width(lines, b.1), b.1))
                    &&& a.1 > b.1 ==> final(self).selection_start == Some((line_width(lines, a.1), a.1))
                        && final(self).selection_end == Some((0usize, b.1))
                },
                _ => *final(self) == *old(self),
            },
    {
        match (self.selection_start, self.selection_end) {
            (Some(a), Some(b)) => {
                let wa = if a.1 < self.content.len() { self.content[a.1].len() } else { 0 };
                let wb = if b.1 < self.content.len() { self.content[b.1].len() } else { 0 };
                if a.1 <= b.1 {
                    self.selection_start = Some((0, a.1));
                    self.selection_end = Some((wb, b.1));
                } else {
                    self.selection_start = Some((wa, a.1));
                    self.selection_end = Some((0, b.1));
                }
                self.selection_mode = true;
            },
            _ => {},
        }
    }

    /// Takes one level of indentation off the cursor's line, moving the
    /// cursor four columns left with it. A line with no indentation to take
    /// off, or a cursor past the last line, changes nothing.
    pub fn dedent_line(&mut self)
        ensures
            old(self).cursor_y >= old(self).content@.len() ==> *final(self) == *old(self),
            old(self).cursor_y < old(self).content@.len() ==> ({
                let lines = old(self).spot().0;
                let y = old(self).cursor_y as int;
                &&& unindented(lines[y]) == lines[y] ==> *final(self) == *old(self)
                &&& unindented(lines[y]) != lines[y] ==> {
                    &&& final(self).spot() == (lines.update(y, unindented(lines[y])), four_left(old(self).cursor_x) as int, y)
                    &&& final(self).same_selection(old(self))
                    &&& recorded_over(old(self), final(self))
                    &&& final(self).undo_stack@.last() matches EditOperation::ReplaceText { position, old_text, new_text }
                        && position == (0usize, y as usize) && old_text@ == lines[y] && new_text@ == unindented(lines[y])
                }
            }),
    {
        if self.cursor_y >= self.content.len() {
            return;
        }
        let y = self.cursor_y;
        let new_line = unindented_line(&self.content[y]);
        if same_chars(&new_line, &self.content[y]) {
            return;
        }
        let op = EditOperation::ReplaceText {
            position: (0, y),
            old_text: line_text(&self.content[y]),
            new_text: line_text(&new_line),
        };
        let ghost lines = self.spot().0;
        self.content.set(y, new_line);
        self.cursor_x = if self.cursor_x >= 4 { self.cursor_x - 4 } else { 0 };
        self.modified = true;
        self.record_operation(op, false);
        proof {
            assert(self.spot().0 =~= lines.update(y as int, unindented(lines[y as int])));
            assert(self.undo_stack@.len() > 0);
        }
    }

    /// Takes one level of indentation off every selected line, or off the
    /// cursor's line without a selection. The selection's ends and the cursor
    /// move four columns left. The changed lines are recorded as one entry.
    pub fn dedent_selection(&mut self)
        ensures
            ({
                let lines = settled_lines(old(self).spot().0);
                let y = settled_row(old(self).spot().0, old(self).cursor_y as int);
                let (s, e) = old(self).selection_bounds();
                let first = s.1 as int;
                let last = e.1 as int;
                let rows = unindented_lines(lines, first, toggle_count(lines, first, last));
                &&& !old(self).selecting() && unindented(lines[y]) != lines[y] ==> {
                    &&& final(self).spot() == (lines.update(y, unindented(lines[y])), four_left(old(self).cursor_x) as int, y)
                    &&& final(self).same_selection(old(self))
                    &&& recorded_over(old(self), final(self))
                    &&& final(self).undo_stack@.last() matches EditOperation::ReplaceText { position, old_text, new_text }
                        && position == (0usize, y as usize) && old_text@ == lines[y] && new_text@ == unindented(lines[y])
                }
                &&& !old(self).selecting() && unindented(lines[y]) == lines[y] ==> {
                    &&& final(self).spot() == (lines, old(self).cursor_x as int, y)
                    &&& final(self).only_text_differs(old(self))
                }
                &&& old(self).selecting() ==> {
                    &&& final(self).spot() == (unindented_range(lines, first, last), four_left(old(self).cursor_x) as int, y)
                    &&& final(self).modified
                    &&& final(self).selection_mode == old(self).selection_mode
                    &&& (old(self).selection_start matches Some(a) && final(self).selection_start == Some((four_left(a.0), a.1)))
                    &&& (old(self).selection_end matches Some(b) && final(self).selection_end == Some((four_left(b.0), b.1)))
                    &&& rows.len() > 0 ==> {
                        &&& recorded_over(old(self), final(self))
                        &&& final(self).undo_stack@.last() matches EditOperation::BatchOperation { operations }
                            && replaces_unindented(operations@, lines, rows)
                    }
                    &&& rows.len() == 0 ==> {
                        &&& final(self).undo_stack@ == old(self).undo_stack@
                        &&& final(self).redo_stack@ == old(self).redo_stack@
                        &&& final(self).char_insert_group@ == old(self).char_insert_group@
                    }
                }
            }),
    {
        self.settle_cursor();
        if !self.has_selection() {
            self.dedent_line();
            return;
        }
        let ghost lines = self.spot().0;
        let (s, e) = self.get_normalized_selection();
        let first = s.1;
        let last = e.1;
        let ghost before = *self;
        let mut ops: Vec<EditOperation> = Vec::new();
        let mut k: usize = first;
        while k < self.content.len() && k <= last
            invariant
                self.content@.len() == lines.len(),
                first <= k,
                k == first || (k <= last + 1 && k <= lines.len()),
                forall|j: int| 0 <= j < lines.len() ==> #[trigger] self.content@[j]@ == (if first <= j < k {
                    unindented(lines[j])
                } else {
                    lines[j]
                }),
                replaces_unindented(ops@, lines, unindented_lines(lines, first as int, k - first)),
                self.cursor_x == before.cursor_x,
                self.cursor_y == before.cursor_y,
                self.modified == before.modified,
                self.undo_stack == before.undo_stack,
                self.redo_stack == before.redo_stack,
                self.char_insert_group == before.char_insert_group,
                self.selection_start == before.selection_start,
                self.selection_end == before.selection_end,
                self.selection_mode == before.selection_mode,
            decreases self.content.len() - k,
        {
            let new_line = unindented_line(&self.content[k]);
            let changed = !same_chars(&new_line, &self.content[k]);
            proof {
                assert(k + 1 - first - 1 == k - first);
            }
            if changed {
                let op = EditOperation::ReplaceText {
                    position: (0, k),
                    old_text: line_text(&self.content[k]),
                    new_text: line_text(&new_line),
                };
                ops.push(op);
                self.content.set(k, new_line);
            }
            k = k + 1;
        }
        proof {
            assert(self.spot().0 =~= unindented_range(lines, first as int, last as int));
        }
        match (self.selection_start, self.selection_end) {
            (Some(a), Some(b)) => {
                let na = if a.0 >= 4 { a.0 - 4 } else { 0 };
                let nb = if b.0 >= 4 { b.0 - 4 } else { 0 };
                self.selection_start = Some((na, a.1));
                self.selection_end = Some((nb, b.1));
            },
            _ => {},
        }
        self.cursor_x = if self.cursor_x >= 4 { self.cursor_x - 4 } else { 0 };
        self.modified = true;
        if ops.len() > 0 {
            self.record_operation(EditOperation::BatchOperation { operations: ops }, false);
            proof {
                assert(self.undo_stack@.len() > 0);
            }
        }
    }
}

/// Whether a character is a control code (general category Cc), as
/// `char::is_control` says.
pub open spec fn control_code(c: char) -> bool {
    (c as u32) < 0x20 || (0x7f <= (c as u32) && (c as u32) <= 0x9f)
}

/// What pasting a text types: newlines as they are, a tab as four spaces,
/// other control codes not at all, everything else as it is.
pub open spec fn pasted(text: Seq<char>) -> Seq<char>
    decreases text.len(),
{
    if text.len() == 0 {
        Seq::empty()
    } else {
        let front = pasted(text.drop_last());
        let c = text.last();
        if c == '\n' {
            front.push('\n')
        } else if c == '\t' {
            front + spaces(4)
        } else if control_code(c) {
            front
        } else {
            front.push(c)
        }
    }
}

/// The text a paste types.
fn pasted_text(text: &str) -> (r: String)
    ensures
        r@ == pasted(text@),
{
    let cs = crate::text::chars_of(text);
    let mut out: Vec<char> = Vec::new();
    let mut i: usize = 0;
    while i < cs.len()
        invariant
            i <= cs@.len(),
            cs@ == text@,
            out@ == pasted(cs@.take(i as int)),
        decreases cs.len() - i,
    {
        let c = cs[i];
        proof { assert(cs@.take(i + 1).drop_last() == cs@.take(i as int)); }
        let u = c as u32;
        if c == '\n' {
            out.push('\n');
        } else if c == '\t' {
            let mut j: usize = 0;
            let ghost front = out@;
            while j < 4
                invariant
                    j <= 4,
                    out@ == front + spaces(j as int),
                decreases 4 - j,
            {
                out.push(' ');
                j = j + 1;
                proof { assert(out@ =~= front + spaces(j as int)); }
            }
        } else if u < 0x20 || (0x7f <= u && u <= 0x9f) {
        } else {
            out.push(c);
        }
        i = i + 1;
    }
    proof { assert(cs@.take(cs@.len() as int) =~= cs@); }
    line_text(&out)
}

impl Tab {
    /// Where a paste starts typing: over a selection, at its start once it
    /// is removed; otherwise at the cursor, settled inside the file.
    pub open spec fn paste_base(&self) -> Spot {
        let lines = settled_lines(self.spot().0);
        let (start, end) = self.selection_bounds();
        if self.selecting() {
            (removed_selection(lines, start, end), start.0 as int, start.1 as int)
        } else {
            (lines, self.cursor_x as int, settled_row(self.spot().0, self.cursor_y as int))
        }
    }

    /// Pastes a text at the cursor, replacing the selection when there is
    /// one: newlines split lines, a tab arrives as four spaces, other control
    /// codes are left out. The paste is recorded with the text it typed, and
    /// with the selection it replaced, so one undo takes it all back. Pasting
    /// nothing over a selection still removes the selection, as its own entry.
    pub fn paste_text(&mut self, text: &str)
        requires
            old(self).selecting() ==> removable(
                settled_lines(old(self).spot().0),
                old(self).selection_bounds().0,
                old(self).selection_bounds().1,
            ),
            insert_all_ok(old(self).paste_base(), pasted(text@)),
        ensures
            ({
                let lines = settled_lines(old(self).spot().0);
                let (start, end) = old(self).selection_bounds();
                let base = old(self).paste_base();
                let last = final(self).undo_stack@.last();
                &&& text@.len() > 0 ==> {
                    &&& final(self).spot() == insert_all(base, pasted(text@))
                    &&& recorded_over(old(self), final(self))
                    &&& !old(self).selecting() ==> (last matches EditOperation::InsertText { position, text: typed }
                        && position == (base.1 as usize, base.2 as usize) && typed@ == pasted(text@))
                    &&& old(self).selecting() ==> (last matches EditOperation::BatchOperation { operations }
                        && operations@.len() == 2
                        && (operations@[0] matches EditOperation::DeleteText { position, text: cut } && position == start
                            && cut@ == selection_text(lines, start, end))
                        && (operations@[1] matches EditOperation::InsertText { position, text: typed }
                            && position == (base.1 as usize, base.2 as usize) && typed@ == pasted(text@)))
                }
                &&& text@.len() == 0 ==> final(self).spot() == base
                &&& text@.len() == 0 && old(self).selecting() ==> recorded_over(old(self), final(self)) && (last matches EditOperation::DeleteText {
                    position,
                    text: cut,
                } && position == start && cut@ == selection_text(lines, start, end))
                &&& text@.len() == 0 && !old(self).selecting() ==> final(self).only_text_differs(old(self))
            }),
    {
        self.settle_cursor();
        proof {
            assert(settled_lines(self.spot().0) == self.spot().0);
        }
        let removed = self.take_selection_for_replacement();
        if crate::text::chars_of(text).len() == 0 {
            match removed {
                Some(removal) => {
                    self.record_operation(removal, false);
                    proof { assert(self.undo_stack@.len() > 0); }
                },
                None => {},
            }
            return;
        }
        let position = (self.cursor_x, self.cursor_y);
        let typed = pasted_text(text);
        self.insert_text_at_cursor(typed.as_str());
        self.modified = true;
        let insert = EditOperation::InsertText { position, text: typed };
        match removed {
            Some(removal) => {
                let mut operations: Vec<EditOperation> = Vec::new();
                operations.push(removal);
                operations.push(insert);
                self.record_operation(EditOperation::BatchOperation { operations }, false);
            },
            None => {
                self.record_operation(insert, false);
            },
        }
        proof { assert(self.undo_stack@.len() > 0); }
    }
}

/// Replacing a whole line backward puts its old text back in its place.
proof fn lemma_replace_back(s: Spot, k: usize, old_text: String, new_text: String)
    requires
        newline_free(s.0),
        k < s.0.len(),
        s.0[k as int] == new_text@,
        forall|j: int| 0 <= j < old_text@.len() ==> old_text@[j] != '\n',
    ensures
        applied(s, EditOperation::ReplaceText { position: (0, k), old_text, new_text }, true).0
            == s.0.update(k as int, old_text@),
{
    let y = k as int;
    let p = at(s, (0, k));
    let f = flat(s.0);
    let off = offset(s.0, 0, y);
    lemma_flat_split(s.0, y);
    let n = new_text@.len();
    lemma_delete_n_flat(p, n);
    let d = delete_n(p, n);
    let emptied = s.0.update(y, Seq::<char>::empty());
    lemma_flat_split(emptied, y);
    assert(emptied.take(y) == s.0.take(y));
    assert(emptied.skip(y + 1) == s.0.skip(y + 1));
    assert(f.take(off) + f.skip(off + n) =~= flat(emptied));
    assert forall|i: int, j: int| 0 <= i < emptied.len() && 0 <= j < emptied[i].len()
        implies #[trigger] emptied[i][j] != '\n' by {
        assert(emptied[i] == s.0[i]);
    }
    lemma_flat_injective(d.0, emptied);
    let back = s.0.update(y, old_text@);
    assert(d == (emptied, 0int, y));
    lemma_insert_all_flat(d, old_text@);
    lemma_flat_split(back, y);
    assert(back.take(y) == s.0.take(y));
    assert(back.skip(y + 1) == s.0.skip(y + 1));
    let fe = flat(emptied);
    assert(offset(emptied, 0, y) == off);
    assert(fe.take(off) + old_text@ + fe.skip(off) =~= flat(back));
    assert forall|i: int, j: int| 0 <= i < back.len() && 0 <= j < back[i].len()
        implies #[trigger] back[i][j] != '\n' by {
        if i != y {
            assert(back[i] == s.0[i]);
        }
    }
    lemma_flat_injective(insert_all(d, old_text@).0, back);
}

/// The lines with those of `rows` replaced by `text`.
pub open spec fn rows_replaced(lines: Seq<Seq<char>>, rows: Seq<int>, text: spec_fn(int) -> Seq<char>) -> Seq<Seq<char>> {
    Seq::new(lines.len(), |j: int| if rows.contains(j) { text(j) } else { lines[j] })
}

/// Undoing whole-line replacements of distinct lines, last first, puts
/// every line back.
proof fn lemma_undo_replacements(
    lines: Seq<Seq<char>>,
    rows: Seq<int>,
    ops: Seq<EditOperation>,
    text: spec_fn(int) -> Seq<char>,
    x: int,
    y: int,
)
    requires
        newline_free(lines),
        forall|i: int, j: int| 0 <= i < rows.len() && 0 <= j < text(rows[i]).len() ==> #[trigger] text(rows[i])[j] != '\n',
        forall|i: int| 0 <= i < rows.len() ==> 0 <= #[trigger] rows[i] < lines.len() && rows[i] <= usize::MAX,
        forall|i: int, j: int| 0 <= i < j < rows.len() ==> rows[i] < rows[j],
        ops.len() == rows.len(),
        forall|i: int| 0 <= i < ops.len() ==> (#[trigger] ops[i] matches EditOperation::ReplaceText {
            position,
            old_text,
            new_text,
        } && position == (0usize, rows[i] as usize) && old_text@ == lines[rows[i]] && new_text@ == text(rows[i])),
    ensures
        undone_all((rows_replaced(lines, rows, text), x, y), ops).0 == lines,
    decreases ops.len(),
{
    if ops.len() == 0 {
        assert(rows_replaced(lines, rows, text) =~= lines);
    } else {
        let r0 = rows[0];
        let lines1 = lines.update(r0, text(r0));
        let rest = rows.skip(1);
        assert forall|i: int, j: int| 0 <= i < lines1.len() && 0 <= j < lines1[i].len()
            implies #[trigger] lines1[i][j] != '\n' by {
            if i == r0 {
                assert(text(rows[0])[j] != '\n');
            } else {
                assert(lines1[i] == lines[i]);
            }
        }
        assert forall|i: int, j: int| 0 <= i < rest.len() && 0 <= j < text(rest[i]).len()
            implies #[trigger] text(rest[i])[j] != '\n' by {
            assert(rest[i] == rows[i + 1]);
        }
        assert forall|i: int| 0 <= i < ops.skip(1).len() implies (#[trigger] ops.skip(1)[i] matches EditOperation::ReplaceText {
            position,
            old_text,
            new_text,
        } && position == (0usize, rest[i] as usize) && old_text@ == lines1[rest[i]] && new_text@ == text(rest[i])) by {
            assert(ops.skip(1)[i] == ops[i + 1]);
            assert(rest[i] == rows[i + 1]);
            assert(rows[0] < rows[i + 1]);
        }
        assert(rows_replaced(lines1, rest, text) =~= rows_replaced(lines, rows, text)) by {
            assert forall|j: int| 0 <= j < lines.len() implies rows.contains(j) == (j == r0 || rest.contains(j)) by {
                if rows.contains(j) {
                    let i = choose|i: int| 0 <= i < rows.len() && rows[i] == j;
                    if i > 0 {
                        assert(rest[i - 1] == j);
                    }
                }
                if rest.contains(j) {
                    let i = choose|i: int| 0 <= i < rest.len() && rest[i] == j;
                    assert(rows[i + 1] == j);
                }
                if j == r0 {
                    assert(rows[0] == j);
                }
            }
        }
        lemma_undo_replacements(lines1, rest, ops.skip(1), text, x, y);
        let mid = undone_all((rows_replaced(lines, rows, text), x, y), ops.skip(1));
        assert(mid.0 == lines1);
        match ops[0] {
            EditOperation::ReplaceText { position, old_text, new_text } => {
                assert forall|j: int| 0 <= j < old_text@.len() implies old_text@[j] != '\n' by {
                    assert(lines[r0][j] != '\n');
                }
                lemma_replace_back(mid, r0 as usize, old_text, new_text);
                assert(lines1.update(r0, lines[r0]) =~= lines);
            },
            _ => {},
        }
    }
}

/// Toggling puts no newline into a line that has none.
proof fn lemma_toggled_newline_free(line: Seq<char>, remove: bool)
    requires
        forall|j: int| 0 <= j < line.len() ==> line[j] != '\n',
    ensures
        forall|j: int| 0 <= j < toggled(line, remove).len() ==> #[trigger] toggled(line, remove)[j] != '\n',
{
    let lw = lead_white(line) as int;
    crate::outline::lemma_lead_white_bound(line);
    let rest = line.skip(lw);
    let pad = spaces(byte_len(line.take(lw)) as int);
    let t = toggled(line, remove);
    assert forall|j: int| 0 <= j < t.len() implies #[trigger] t[j] != '\n' by {
        if remove {
            if is_comment(line) {
                let tail = if rest.len() > 2 && rest[2] == ' ' { rest.skip(3) } else { rest.skip(2) };
                if j >= pad.len() {
                    assert(t[j] == tail[j - pad.len()]);
                }
            }
        } else {
            if j >= pad.len() + 3 {
                assert(t[j] == rest[j - pad.len() - 3]);
            } else if j >= pad.len() {
                assert(t[j] == seq!['/', '/', ' '][j - pad.len()]);
            }
        }
    }
}

/// The lines toggling changes lie in its range, in order, and take in every
/// line of the range that toggling changes.
proof fn lemma_toggled_lines(lines: Seq<Seq<char>>, first: int, count: int, remove: bool)
    ensures
        forall|i: int| 0 <= i < toggled_lines(lines, first, count, remove).len()
            ==> first <= #[trigger] toggled_lines(lines, first, count, remove)[i] < first + count,
        forall|i: int, j: int| 0 <= i < j < toggled_lines(lines, first, count, remove).len()
            ==> toggled_lines(lines, first, count, remove)[i] < toggled_lines(lines, first, count, remove)[j],
        forall|k: int| first <= k < first + count && toggled(lines[k], remove) != lines[k]
            ==> #[trigger] toggled_lines(lines, first, count, remove).contains(k),
    decreases count,
{
    if count > 0 {
        lemma_toggled_lines(lines, first, count - 1, remove);
        let front = toggled_lines(lines, first, count - 1, remove);
        let k = first + count - 1;
        let all = toggled_lines(lines, first, count, remove);
        if toggled(lines[k], remove) != lines[k] {
            assert(all == front.push(k));
            assert(all[front.len() as int] == k);
            assert forall|j: int| first <= j < first + count && toggled(lines[j], remove) != lines[j]
                implies #[trigger] all.contains(j) by {
                if j < k {
                    assert(front.contains(j));
                    let i = choose|i: int| 0 <= i < front.len() && front[i] == j;
                    assert(all[i] == front[i]);
                    assert(all[i] == j);
                } else {
                    assert(all[front.len() as int] == j);
                }
            }
        } else {
            assert forall|j: int| first <= j < first + count && toggled(lines[j], remove) != lines[j]
                implies #[trigger] all.contains(j) by {
                assert(j < k);
                assert(front.contains(j));
            }
        }
    }
}

/// Undoing the entry a comment toggle recorded puts every line back: the
/// replacements it holds, taken back last first, turn the toggled lines into
/// the lines as they were.
pub proof fn a_toggled_selection_is_one_undo_away(
    lines: Seq<Seq<char>>,
    first: int,
    last: int,
    remove: bool,
    ops: Seq<EditOperation>,
    x: int,
    y: int,
)
    requires
        newline_free(lines),
        0 <= first,
        lines.len() <= usize::MAX,
        replaces_lines(ops, lines, toggled_lines(lines, first, toggle_count(lines, first, last), remove), remove),
    ensures
        undone_all((toggled_range(lines, first, last, remove), x, y), ops).0 == lines,
{
    let count = toggle_count(lines, first, last);
    let rows = toggled_lines(lines, first, count, remove);
    let text = |j: int| toggled(lines[j], remove);
    lemma_toggled_lines(lines, first, count, remove);
    assert forall|i: int, j: int| 0 <= i < rows.len() && 0 <= j < text(rows[i]).len()
        implies #[trigger] text(rows[i])[j] != '\n' by {
        let r = rows[i];
        assert forall|m: int| 0 <= m < lines[r].len() implies lines[r][m] != '\n' by {
            assert(lines[r][m] != '\n');
        }
        lemma_toggled_newline_free(lines[r], remove);
    }
    assert(toggled_range(lines, first, last, remove) =~= rows_replaced(lines, rows, text)) by {
        assert forall|k: int| 0 <= k < lines.len() implies #[trigger] toggled_range(lines, first, last, remove)[k]
            == rows_replaced(lines, rows, text)[k] by {
            if rows.contains(k) {
                let i = choose|i: int| 0 <= i < rows.len() && rows[i] == k;
                assert(first <= rows[i] < first + count);
            } else if first <= k <= last {
                assert(first <= k < first + count);
            }
        }
    }
    lemma_undo_replacements(lines, rows, ops, text, x, y);
}


/// Undoing a duplicated line takes the copy away, when a line follows it;
/// the copy of the last line, with no line after it, leaves an empty line
/// behind, since deleting at the end of the last line stops there.
pub proof fn a_duplicated_line_is_one_undo_away(lines: Seq<Seq<char>>, y: int, text: String, x: int)
    requires
        newline_free(lines),
        0 <= y,
        y + 1 < lines.len(),
        y + 1 <= usize::MAX,
        text@ == lines[y].push('\n'),
    ensures
        applied(
            (lines.insert(y + 1, lines[y]), x, y + 1),
            EditOperation::InsertText { position: (0, (y + 1) as usize), text },
            true,
        ).0 == lines,
{
    let doubled = lines.insert(y + 1, lines[y]);
    assert forall|i: int, j: int| 0 <= i < doubled.len() && 0 <= j < doubled[i].len()
        implies #[trigger] doubled[i][j] != '\n' by {
        if i <= y {
            assert(doubled[i] == lines[i]);
        } else if i == y + 1 {
            assert(doubled[i] == lines[y]);
        } else {
            assert(doubled[i] == lines[i - 1]);
        }
    }
    let p = (doubled, 0int, y + 1);
    lemma_flat_split(doubled, y + 1);
    assert(doubled.take(y + 1) == lines.take(y + 1));
    assert(doubled.skip(y + 2) == lines.skip(y + 1));
    lemma_flat_split(lines.skip(y + 1), 0);
    let n = text@.len();
    lemma_delete_n_flat(p, n);
    let f = flat(doubled);
    let off = offset(doubled, 0, y + 1);
    lemma_flat_append(lines.take(y + 1), lines.skip(y + 1));
    assert(lines.take(y + 1) + lines.skip(y + 1) =~= lines);
    assert(f.take(off) + f.skip(off + n) =~= flat(lines));
    lemma_flat_injective(delete_n(p, n).0, lines);
}

/// Undoing a changed line puts its text back after its indentation.
pub proof fn a_changed_line_is_one_undo_away(lines: Seq<Seq<char>>, y: int, old_text: String, new_text: String, x: int)
    requires
        newline_free(lines),
        0 <= y < lines.len(),
        y <= usize::MAX,
        old_text@ == lines[y],
        new_text@ == lines[y].take(lead_white(lines[y]) as int),
    ensures
        applied(
            (lines.update(y, new_text@), x, y),
            EditOperation::ReplaceText { position: (0, y as usize), old_text, new_text },
            true,
        ).0 == lines,
{
    let changed = lines.update(y, new_text@);
    crate::outline::lemma_lead_white_bound(lines[y]);
    assert forall|i: int, j: int| 0 <= i < changed.len() && 0 <= j < changed[i].len()
        implies #[trigger] changed[i][j] != '\n' by {
        if i == y {
            assert(changed[i][j] == lines[y][j]);
            assert(lines[y][j] != '\n');
        } else {
            assert(changed[i] == lines[i]);
        }
    }
    assert forall|j: int| 0 <= j < old_text@.len() implies old_text@[j] != '\n' by {
        assert(lines[y][j] != '\n');
    }
    lemma_replace_back((changed, x, y), y as usize, old_text, new_text);
    assert(changed.update(y, old_text@) =~= lines);
}


/// Undoing a deleted line puts it back, when a line followed it; a deleted
/// last line comes back above the line that was before it, since the
/// deletion is recorded where the cursor lands, one line up.
#[verifier::rlimit(40)]
pub proof fn a_deleted_line_is_one_undo_away(lines: Seq<Seq<char>>, y: int, text: String, x: int)
    requires
        newline_free(lines),
        0 <= y,
        y + 1 < lines.len(),
        y <= usize::MAX,
        text@ == lines[y].push('\n'),
    ensures
        applied(
            (lines.remove(y), x, y),
            EditOperation::DeleteText { position: (0, y as usize), text },
            true,
        ).0 == lines,
{
    let removed = lines.remove(y);
    assert forall|i: int, j: int| 0 <= i < removed.len() && 0 <= j < removed[i].len()
        implies #[trigger] removed[i][j] != '\n' by {
        if i < y {
            assert(removed[i] == lines[i]);
        } else {
            assert(removed[i] == lines[i + 1]);
        }
    }
    let p = (removed, 0int, y);
    lemma_insert_all_flat(p, text@);
    lemma_flat_split(removed, y);
    lemma_flat_split(lines, y);
    assert(removed.take(y) == lines.take(y));
    assert(removed.skip(y) =~= lines.skip(y + 1));
    lemma_flat_split(lines.skip(y + 1), 0);
    lemma_flat_split(removed.skip(y), 0);
    lemma_flat_append(removed.take(y), removed.skip(y));
    assert(removed.take(y) + removed.skip(y) =~= removed);
    let f = flat(removed);
    let off = offset(removed, 0, y);
    assert(f.take(off) =~= flat(lines.take(y)));
    assert(f.skip(off) =~= flat(lines.skip(y + 1)));
    assert(f.take(off) + text@ + f.skip(off) =~= flat(lines));
    lemma_flat_injective(insert_all(p, text@).0, lines);
}


/// Undoing a moved line puts both lines back where they were.
pub proof fn a_moved_line_is_one_undo_away(lines: Seq<Seq<char>>, z: int, ops: Seq<EditOperation>, x: int, y: int)
    requires
        newline_free(lines),
        0 <= z,
        z + 1 < lines.len(),
        z + 1 <= usize::MAX,
        swaps_lines(ops, lines, z),
    ensures
        undone_all((swapped(lines, z), x, y), ops).0 == lines,
{
    let s0 = (swapped(lines, z), x, y);
    let half = lines.update(z, lines[z + 1]);
    assert forall|i: int, j: int| 0 <= i < swapped(lines, z).len() && 0 <= j < swapped(lines, z)[i].len()
        implies #[trigger] swapped(lines, z)[i][j] != '\n' by {
        if i == z {
            assert(swapped(lines, z)[i] == lines[z + 1]);
        } else if i == z + 1 {
            assert(swapped(lines, z)[i] == lines[z]);
        } else {
            assert(swapped(lines, z)[i] == lines[i]);
        }
    }
    assert(ops.skip(1).skip(1) =~= Seq::<EditOperation>::empty());
    assert(undone_all(s0, ops.skip(1).skip(1)) == s0);
    assert(ops.skip(1)[0] == ops[1]);
    match ops[1] {
        EditOperation::ReplaceText { position, old_text, new_text } => {
            assert forall|j: int| 0 <= j < old_text@.len() implies old_text@[j] != '\n' by {
                assert(lines[z + 1][j] != '\n');
            }
            lemma_replace_back(s0, (z + 1) as usize, old_text, new_text);
            assert(swapped(lines, z).update(z + 1, old_text@) =~= half);
        },
        _ => {},
    }
    let s1 = undone_all(s0, ops.skip(1));
    assert(s1.0 == half);
    assert forall|i: int, j: int| 0 <= i < half.len() && 0 <= j < half[i].len()
        implies #[trigger] half[i][j] != '\n' by {
        if i == z {
            assert(half[i] == lines[z + 1]);
        } else {
            assert(half[i] == lines[i]);
        }
    }
    match ops[0] {
        EditOperation::ReplaceText { position, old_text, new_text } => {
            assert forall|j: int| 0 <= j < old_text@.len() implies old_text@[j] != '\n' by {
                assert(lines[z][j] != '\n');
            }
            lemma_replace_back(s1, z as usize, old_text, new_text);
            assert(half.update(z, old_text@) =~= lines);
        },
        _ => {},
    }
}


/// Whether a line's indentation is spaces only.
pub open spec fn space_indented(line: Seq<char>) -> bool {
    forall|j: int| 0 <= j < lead_white(line) ==> #[trigger] line[j] == ' '
}

proof fn lemma_byte_len_spaces(n: nat)
    ensures
        byte_len(spaces(n as int)) == n,
    decreases n,
{
    if n > 0 {
        assert(spaces(n as int).drop_last() =~= spaces((n - 1) as int));
        lemma_byte_len_spaces((n - 1) as nat);
    }
}

/// A space-indented line gets its marker and loses it again unchanged.
proof fn lemma_toggled_back(line: Seq<char>)
    requires
        space_indented(line),
    ensures
        is_comment(toggled(line, false)),
        toggled(toggled(line, false), true) == line,
{
    let lw = lead_white(line) as int;
    crate::outline::lemma_lead_white_bound(line);
    assert(line.take(lw) =~= spaces(lw));
    lemma_byte_len_spaces(lw as nat);
    let rest = line.skip(lw);
    let marked = toggled(line, false);
    assert(marked == spaces(lw) + seq!['/', '/', ' '] + rest);
    assert forall|j: int| 0 <= j < lw implies crate::text::is_white(#[trigger] marked[j]) by {
        assert(marked[j] == ' ');
    }
    assert(marked[lw] == '/');
    crate::outline::lemma_lead_white(marked, lw);
    let mrest = marked.skip(lw);
    assert(mrest =~= seq!['/', '/', ' '] + rest);
    assert(mrest.take(2) =~= seq!['/', '/']);
    assert(marked.take(lw) =~= spaces(lw));
    assert(mrest.skip(3) =~= rest);
    assert(spaces(lw) + rest =~= line);
}

/// Toggling the comments of space-indented lines twice, when not all of them
/// were comments, gives the lines back: the first toggle puts a marker on
/// every one of them, so the second takes every marker off.
pub proof fn toggling_twice_restores(lines: Seq<Seq<char>>, first: int, last: int)
    requires
        0 <= first,
        forall|k: int| first <= k <= last && k < lines.len() ==> space_indented(#[trigger] lines[k]),
        !all_comments(lines, first, last),
    ensures
        all_comments(toggled_range(lines, first, last, false), first, last),
        toggled_range(toggled_range(lines, first, last, false), first, last, true) == lines,
{
    let once = toggled_range(lines, first, last, false);
    assert forall|k: int| first <= k <= last && k < once.len() implies #[trigger] is_comment(once[k]) by {
        lemma_toggled_back(lines[k]);
    }
    assert forall|k: int| 0 <= k < lines.len() implies #[trigger] toggled_range(once, first, last, true)[k] == lines[k] by {
        if first <= k <= last {
            lemma_toggled_back(lines[k]);
        }
    }
    assert(toggled_range(once, first, last, true) =~= lines);
}


/// Whether each entry, undone from the lines it left wherever the cursor
/// stands, gives back the lines before it: what each edit's one-undo law
/// states.
pub open spec fn each_undoes(states: Seq<Seq<Seq<char>>>, entries: Seq<EditOperation>) -> bool {
    &&& states.len() == entries.len() + 1
    &&& forall|i: int, x: int, y: int| 0 <= i < entries.len() ==> #[trigger] applied(
        (states[i + 1], x, y),
        entries[i],
        true,
    ).0 == states[i]
}

/// Undoing until nothing is left restores the file: when every entry a run
/// of edits recorded is taken back by one undo, as each edit's own law says,
/// undoing all of them, the last first, gives back the lines before the
/// first edit, wherever the cursor stood.
pub proof fn undoing_every_entry_restores(states: Seq<Seq<Seq<char>>>, entries: Seq<EditOperation>, x: int, y: int)
    requires
        each_undoes(states, entries),
    ensures
        undone_all((states.last(), x, y), entries).0 == states[0],
    decreases entries.len(),
{
    if entries.len() == 0 {
    } else {
        let later = states.skip(1);
        assert forall|i: int, a: int, b: int| 0 <= i < entries.skip(1).len() implies #[trigger] applied(
            (later[i + 1], a, b),
            entries.skip(1)[i],
            true,
        ).0 == later[i] by {
            assert(later[i + 1] == states[i + 2]);
            assert(entries.skip(1)[i] == entries[i + 1]);
            assert(applied((states[(i + 1) + 1], a, b), entries[i + 1], true).0 == states[i + 1]);
        }
        assert(later.last() == states.last());
        undoing_every_entry_restores(later, entries.skip(1), x, y);
        let mid = undone_all((states.last(), x, y), entries.skip(1));
        assert(mid == (states[1], mid.1, mid.2));
        assert(applied((states[0int + 1], mid.1, mid.2), entries[0], true).0 == states[0int]);
    }
}


proof fn lemma_unindented_lines(lines: Seq<Seq<char>>, first: int, count: int)
    ensures
        forall|i: int| 0 <= i < unindented_lines(lines, first, count).len()
            ==> first <= #[trigger] unindented_lines(lines, first, count)[i] < first + count,
        forall|i: int, j: int| 0 <= i < j < unindented_lines(lines, first, count).len()
            ==> unindented_lines(lines, first, count)[i] < unindented_lines(lines, first, count)[j],
        forall|k: int| first <= k < first + count && unindented(lines[k]) != lines[k]
            ==> #[trigger] unindented_lines(lines, first, count).contains(k),
    decreases count,
{
    if count > 0 {
        lemma_unindented_lines(lines, first, count - 1);
        let front = unindented_lines(lines, first, count - 1);
        let k = first + count - 1;
        let all = unindented_lines(lines, first, count);
        if unindented(lines[k]) != lines[k] {
            assert(all == front.push(k));
            assert(all[front.len() as int] == k);
            assert forall|j: int| first <= j < first + count && unindented(lines[j]) != lines[j]
                implies #[trigger] all.contains(j) by {
                if j < k {
                    assert(front.contains(j));
                    let i = choose|i: int| 0 <= i < front.len() && front[i] == j;
                    assert(all[i] == front[i]);
                } else {
                    assert(all[front.len() as int] == j);
                }
            }
        } else {
            assert forall|j: int| first <= j < first + count && unindented(lines[j]) != lines[j]
                implies #[trigger] all.contains(j) by {
                assert(j < k);
                assert(front.contains(j));
            }
        }
    }
}

/// Undoing the entry a dedent of a selection recorded puts every line back.
pub proof fn a_dedented_selection_is_one_undo_away(
    lines: Seq<Seq<char>>,
    first: int,
    last: int,
    ops: Seq<EditOperation>,
    x: int,
    y: int,
)
    requires
        newline_free(lines),
        0 <= first,
        lines.len() <= usize::MAX,
        replaces_unindented(ops, lines, unindented_lines(lines, first, toggle_count(lines, first, last))),
    ensures
        undone_all((unindented_range(lines, first, last), x, y), ops).0 == lines,
{
    let count = toggle_count(lines, first, last);
    let rows = unindented_lines(lines, first, count);
    let text = |j: int| unindented(lines[j]);
    lemma_unindented_lines(lines, first, count);
    assert forall|i: int, j: int| 0 <= i < rows.len() && 0 <= j < text(rows[i]).len()
        implies #[trigger] text(rows[i])[j] != '\n' by {
        let r = rows[i];
        let line = lines[r];
        if starts(line, seq![' ', ' ', ' ', ' ']) {
            assert(text(r)[j] == line[j + 4]);
        } else if starts(line, seq!['\t']) {
            assert(text(r)[j] == line[j + 1]);
        } else {
            assert(text(r)[j] == line[j]);
        }
    }
    assert(unindented_range(lines, first, last) =~= rows_replaced(lines, rows, text)) by {
        assert forall|k: int| 0 <= k < lines.len() implies #[trigger] unindented_range(lines, first, last)[k]
            == rows_replaced(lines, rows, text)[k] by {
            if rows.contains(k) {
                let i = choose|i: int| 0 <= i < rows.len() && rows[i] == k;
                assert(first <= rows[i] < first + count);
            } else if first <= k <= last {
                assert(first <= k < first + count);
            }
        }
    }
    lemma_undo_replacements(lines, rows, ops, text, x, y);
}


/// Whether the character after the cursor is the given one.
pub open spec fn next_char_is(line: Seq<char>, x: int, k: char) -> bool {
    0 <= x < line.len() && line[x] == k
}

/// Typing an opener adds its pair after the cursor: `{` gets `}`, `[` gets
/// `]`, `(` gets `)`, `"` gets `"` and `'` gets `'`, unless that closer is
/// already the next character; no other character adds anything.
pub proof fn openers_are_closed_by_their_pair(line: Seq<char>, x: int, c: char)
    ensures
        auto_closing('{', line, x) == (if next_char_is(line, x, '}') { None } else { Some('}') }),
        auto_closing('[', line, x) == (if next_char_is(line, x, ']') { None } else { Some(']') }),
        auto_closing('(', line, x) == (if next_char_is(line, x, ')') { None } else { Some(')') }),
        auto_closing('"', line, x) == (if next_char_is(line, x, '"') { None } else { Some('"') }),
        auto_closing('\'', line, x) == (if next_char_is(line, x, '\'') { None } else { Some('\'') }),
        c != '{' && c != '[' && c != '(' && c != '"' && c != '\'' ==> auto_closing(c, line, x) is None,
{
}

} // verus!
