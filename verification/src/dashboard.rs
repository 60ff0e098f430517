//! What the dashboard shows: the rotating cursors, the info/quote pane, the
//! docker rows and the numbering of list entries.
use vstd::prelude::*;
use crate::items::{DockerSvc, InfoItem};
use crate::text::{
    chars_of, decimal, decimal_chars, extend_chars, pad_left, pad_left_chars, pad_right,
    pad_right_chars, string_of, truncate, truncated,
};

verus! {

/// How many quotes the dashboard cycles through when the info stack is empty.
pub const QUOTE_COUNT: usize = 8;

/// The quote at position `i` (for `i < QUOTE_COUNT`).
pub open spec fn quote_text(i: nat) -> Seq<char> {
    if i == 0 {
        "Make it work, then make it right."@
    } else if i == 1 {
        "Small commits, big confidence."@
    } else if i == 2 {
        "Naming is half the design."@
    } else if i == 3 {
        "Boring tech ships."@
    } else if i == 4 {
        "Read the error message."@
    } else if i == 5 {
        "Optimise for the reader."@
    } else if i == 6 {
        "Delete code; it's a liability."@
    } else {
        "Cache invalidation is hard."@
    }
}

/// The quote at position `i`.
pub fn quote(i: usize) -> (r: &'static str)
    requires
        i < QUOTE_COUNT,
    ensures
        r@ == quote_text(i as nat),
{
    match i {
        0 => "Make it work, then make it right.",
        1 => "Small commits, big confidence.",
        2 => "Naming is half the design.",
        3 => "Boring tech ships.",
        4 => "Read the error message.",
        5 => "Optimise for the reader.",
        6 => "Delete code; it's a liability.",
        _ => "Cache invalidation is hard.",
    }
}

/// The next position of a cursor over `len` entries: one further, back to
/// the start after the last; unchanged when there is nothing to show.
pub open spec fn next_cursor(cursor: nat, len: nat) -> nat {
    if len > 0 {
        (cursor + 1) % len
    } else {
        cursor
    }
}

/// One tick of the dashboard's rotation: the info cursor moves over the
/// `info_len` items of the stack and the quote cursor over the quotes.
/// Returns the new info cursor and the new quote cursor.
pub fn tick_cursors(info_len: usize, info_cursor: usize, quote_cursor: usize) -> (r: (
    usize,
    usize,
))
    requires
        info_len > 0 ==> info_cursor < usize::MAX,
        quote_cursor < usize::MAX,
    ensures
        r.0 == next_cursor(info_cursor as nat, info_len as nat),
        r.1 == next_cursor(quote_cursor as nat, QUOTE_COUNT as nat),
{
    let info = if info_len > 0 {
        (info_cursor + 1) % info_len
    } else {
        info_cursor
    };
    (info, (quote_cursor + 1) % QUOTE_COUNT)
}

/// The cursor after `k` ticks over `len` entries.
pub open spec fn cursor_after(cursor: nat, len: nat, k: nat) -> nat
    decreases k,
{
    if k == 0 {
        cursor
    } else {
        next_cursor(cursor_after(cursor, len, (k - 1) as nat), len)
    }
}

/// The rotation walks the entries in turn: after `k` ticks a cursor that
/// started on an entry is `k` places further on, wrapping round, so every
/// entry is shown and the cursor is back where it started after `len` ticks.
pub proof fn law_cursor_cycles(cursor: nat, len: nat, k: nat)
    requires
        cursor < len,
    ensures
        cursor_after(cursor, len, k) == (cursor + k) % len,
        cursor_after(cursor, len, k) < len,
    decreases k,
{
    if k > 0 {
        let j = (k - 1) as nat;
        law_cursor_cycles(cursor, len, j);
        let x: int = (cursor + j) as int;
        let m: int = len as int;
        vstd::arithmetic::div_mod::lemma_add_mod_noop(x, 1, m);
        vstd::arithmetic::div_mod::lemma_add_mod_noop(x % m, 1, m);
        vstd::arithmetic::div_mod::lemma_mod_twice(x, m);
        assert((x % m + 1) % m == (x + 1) % m);
        assert(cursor_after(cursor, len, k) == next_cursor(cursor_after(cursor, len, j), len));
        assert((cursor + k) as int == x + 1);
    } else {
        vstd::arithmetic::div_mod::lemma_small_mod(cursor, len);
    }
}

/// The title and the text of the info pane: the item under the cursor (the
/// last one when the cursor is past the end), titled with its 1-based place
/// in the stack, or, when the stack is empty, the quote under the quote
/// cursor.
pub open spec fn info_pane_spec(info: Seq<InfoItem>, info_cursor: nat, quote_cursor: nat) -> (
    Seq<char>,
    Seq<char>,
) {
    if info.len() > 0 {
        let idx = if info_cursor < info.len() - 1 {
            info_cursor
        } else {
            (info.len() - 1) as nat
        };
        (
            "info "@ + decimal(idx + 1) + "/"@ + decimal(info.len()),
            info[idx as int].text@,
        )
    } else {
        ("quote"@, quote_text(quote_cursor % QUOTE_COUNT as nat))
    }
}

/// The title and text of the info pane (see [`info_pane_spec`]).
pub fn info_pane(info: &Vec<InfoItem>, info_cursor: usize, quote_cursor: usize) -> (r: (
    String,
    String,
))
    ensures
        (r.0@, r.1@) == info_pane_spec(info@, info_cursor as nat, quote_cursor as nat),
{
    if info.len() > 0 {
        let last = info.len() - 1;
        let idx = if info_cursor < last {
            info_cursor
        } else {
            last
        };
        let mut title = chars_of("info ");
        let pos = decimal_chars((idx + 1) as u128);
        extend_chars(&mut title, &pos);
        let slash = chars_of("/");
        extend_chars(&mut title, &slash);
        let count = decimal_chars(info.len() as u128);
        extend_chars(&mut title, &count);
        let text = info[idx].text.clone();
        (string_of(&title), text)
    } else {
        let q = quote(quote_cursor % QUOTE_COUNT);
        (string_of(&chars_of("quote")), string_of(&chars_of(q)))
    }
}

/// The width of the container-name column.
pub const NAME_COLUMN: usize = 38;

/// The width of the CPU column.
pub const CPU_COLUMN: usize = 8;

/// The two cells of a docker row: the name cut to the name column and
/// padded to it, followed by one space, and the CPU figure right-aligned
/// in its column.
pub open spec fn docker_row_spec(svc: DockerSvc) -> (Seq<char>, Seq<char>) {
    (
        pad_right(truncated(svc.name@, NAME_COLUMN as nat), NAME_COLUMN as nat).push(' '),
        pad_left(svc.cpu@, CPU_COLUMN as nat),
    )
}

/// The cells of the row that shows `svc` (see [`docker_row_spec`]).
pub fn docker_row(svc: &DockerSvc) -> (r: (String, String))
    ensures
        (r.0@, r.1@) == docker_row_spec(*svc),
{
    let name = truncate(svc.name.as_str(), NAME_COLUMN);
    let mut left = pad_right_chars(&chars_of(name.as_str()), NAME_COLUMN);
    left.push(' ');
    let right = pad_left_chars(&chars_of(svc.cpu.as_str()), CPU_COLUMN);
    (string_of(&left), string_of(&right))
}

/// The label in front of the `i`-th entry (counting from 0) of a numbered
/// listing: its 1-based number right-aligned in two columns, then `. `.
pub open spec fn index_label_spec(i: nat) -> Seq<char> {
    pad_left(decimal(i + 1), 2) + ". "@
}

/// The label in front of the `i`-th entry of a numbered listing.
pub fn index_label(i: usize) -> (r: String)
    requires
        i < usize::MAX,
    ensures
        r@ == index_label_spec(i as nat),
{
    let mut out = pad_left_chars(&decimal_chars((i + 1) as u128), 2);
    extend_chars(&mut out, &chars_of(". "));
    string_of(&out)
}

/// The height of the docker pane: its two borders and one line per
/// container, at least one line, the line count taken as a `u16` (so it
/// wraps past 65535).
pub fn docker_pane_height(containers: usize) -> (h: u16)
    requires
        (if containers > 0 { containers } else { 1 }) as u16 <= 65533,
    ensures
        h == 2 + ((if containers > 0 { containers } else { 1 }) as u16),
{
    let rows: usize = if containers > 0 {
        containers
    } else {
        1
    };
    2 + (rows as u16)
}

} // verus!

verus! {

/// The title of a pane as its border shows it: the name with a space on
/// each side.
pub fn pane_title(name: &str) -> (r: String)
    ensures
        r@ == " "@ + name@ + " "@,
{
    let mut cs = chars_of(" ");
    extend_chars(&mut cs, &chars_of(name));
    extend_chars(&mut cs, &chars_of(" "));
    string_of(&cs)
}

/// A key press as the dashboard sees it.
pub enum Key {
    Char(char),
    Esc,
    Other,
}

/// Whether a key press ends the dashboard: `q`, `Esc`, or `c` with Control.
pub fn quits(key: &Key, control: bool) -> (r: bool)
    ensures
        r == match *key {
            Key::Char(c) => c == 'q' || (c == 'c' && control),
            Key::Esc => true,
            Key::Other => false,
        },
{
    match key {
        Key::Char(c) => *c == 'q' || (*c == 'c' && control),
        Key::Esc => true,
        Key::Other => false,
    }
}

} // verus!

verus! {

/// One line of the todo pane.
#[derive(Debug)]
pub enum TodoRow {
    /// The numbered first line of todo `todo`: its label, then the first
    /// line of its body if it has one.
    Numbered { todo: usize, body_line: Option<usize> },
    /// Line `line` (from 1) of the body of todo `todo`, indented four
    /// spaces.
    Indented { todo: usize, line: usize },
    /// The blank line between two todos.
    Blank,
}

/// The lines of todo `i` whose body has `k` lines: the numbered line with
/// the first body line, then the other body lines indented.
pub open spec fn todo_block(i: nat, k: nat) -> Seq<TodoRow> {
    if k == 0 {
        seq![TodoRow::Numbered { todo: i as usize, body_line: None }]
    } else {
        seq![TodoRow::Numbered { todo: i as usize, body_line: Some(0usize) }] + Seq::new(
            (k - 1) as nat,
            |j: int| TodoRow::Indented { todo: i as usize, line: (j + 1) as usize },
        )
    }
}

/// The lines of the todo pane for todos whose bodies have `counts` lines
/// each: their blocks in order, a blank line between two blocks.
pub open spec fn todo_rows_spec(counts: Seq<usize>) -> Seq<TodoRow>
    decreases counts.len(),
{
    if counts.len() == 0 {
        Seq::empty()
    } else if counts.len() == 1 {
        todo_block(0, counts[0] as nat)
    } else {
        todo_rows_spec(counts.drop_last()) + seq![TodoRow::Blank] + todo_block(
            (counts.len() - 1) as nat,
            counts.last() as nat,
        )
    }
}

/// The lines of the todo pane (see [`todo_rows_spec`]), given how many
/// lines the body of each todo has.
pub fn todo_rows(line_counts: &Vec<usize>) -> (r: Vec<TodoRow>)
    ensures
        r@ == todo_rows_spec(line_counts@),
{
    let mut rows: Vec<TodoRow> = Vec::new();
    let n = line_counts.len();
    assert(line_counts@.take(0) == Seq::<usize>::empty());
    for i in 0..n
        invariant
            n == line_counts@.len(),
            rows@ == todo_rows_spec(line_counts@.take(i as int)),
    {
        let ghost before = rows@;
        let ghost t = line_counts@.take(i + 1);
        assert(t.drop_last() == line_counts@.take(i as int));
        if i > 0 {
            rows.push(TodoRow::Blank);
        }
        let k = line_counts[i];
        let ghost mid = rows@;
        if k == 0 {
            rows.push(TodoRow::Numbered { todo: i, body_line: None });
        } else {
            rows.push(TodoRow::Numbered { todo: i, body_line: Some(0) });
            for j in 1..k
                invariant
                    1 <= k,
                    rows@ == mid + seq![TodoRow::Numbered { todo: i, body_line: Some(0usize) }]
                        + Seq::new(
                        (j - 1) as nat,
                        |m: int| TodoRow::Indented { todo: i, line: (m + 1) as usize },
                    ),
            {
                rows.push(TodoRow::Indented { todo: i, line: j });
                assert(Seq::new(
                    j as nat,
                    |m: int| TodoRow::Indented { todo: i, line: (m + 1) as usize },
                ) == Seq::new(
                    (j - 1) as nat,
                    |m: int| TodoRow::Indented { todo: i, line: (m + 1) as usize },
                ).push(TodoRow::Indented { todo: i, line: j }));
            }
        }
        assert(rows@ == mid + todo_block(i as nat, k as nat));
        if i == 0 {
            assert(before == Seq::<TodoRow>::empty());
            assert(rows@ == todo_rows_spec(t));
        } else {
            assert(rows@ == todo_rows_spec(t));
        }
    }
    assert(line_counts@.take(n as int) == line_counts@);
    rows
}

} // verus!

verus! {

/// Which label the usage pane shows for the current 5-hour block.
#[derive(Debug)]
pub enum BlockLabel {
    /// Tokens used against a known, non-zero limit.
    Limited { used: u64, limit: u64 },
    /// Tokens used with no usable limit.
    Unlimited { used: u64 },
    /// No active block.
    Inactive,
}

/// The block label for the tokens used in the current block and its
/// projected limit.
pub fn block_label(block_tokens: Option<u64>, block_limit: Option<u64>) -> (r: BlockLabel)
    ensures
        r == match (block_tokens, block_limit) {
            (Some(t), Some(l)) => if l > 0 {
                BlockLabel::Limited { used: t, limit: l }
            } else {
                BlockLabel::Unlimited { used: t }
            },
            (Some(t), None) => BlockLabel::Unlimited { used: t },
            (None, _) => BlockLabel::Inactive,
        },
{
    match (block_tokens, block_limit) {
        (Some(t), Some(l)) => if l > 0 {
            BlockLabel::Limited { used: t, limit: l }
        } else {
            BlockLabel::Unlimited { used: t }
        },
        (Some(t), None) => BlockLabel::Unlimited { used: t },
        (None, _) => BlockLabel::Inactive,
    }
}

/// With a cursor on an item of the stack, the info pane shows that item,
/// titled with its 1-based place and the size of the stack; a cursor past
/// the end shows the last item; an empty stack shows the quote under the
/// quote cursor.
pub proof fn law_info_pane_shows_cursor_item(info: Seq<InfoItem>, cursor: nat, quote_cursor: nat)
    ensures
        cursor < info.len() ==> info_pane_spec(info, cursor, quote_cursor) == (
            "info "@ + decimal(cursor + 1) + "/"@ + decimal(info.len()),
            info[cursor as int].text@,
        ),
        0 < info.len() <= cursor ==> info_pane_spec(info, cursor, quote_cursor) == (
            "info "@ + decimal(info.len()) + "/"@ + decimal(info.len()),
            info.last().text@,
        ),
        info.len() == 0 ==> info_pane_spec(info, cursor, quote_cursor) == (
            "quote"@,
            quote_text(quote_cursor % 8),
        ),
{
}

/// Over one full turn of the rotation every item of the stack is shown:
/// starting from the first item, the `k`-th tick shows item `k`.
pub proof fn law_rotation_shows_every_item(info: Seq<InfoItem>, k: nat, quote_cursor: nat)
    requires
        k < info.len(),
    ensures
        info_pane_spec(info, cursor_after(0, info.len(), k), quote_cursor).1 == info[k as int].text@,
{
    law_cursor_cycles(0, info.len(), k);
    vstd::arithmetic::div_mod::lemma_small_mod(k, info.len());
}

/// The label of the `i`-th entry shows its 1-based number, `i + 1`, in
/// decimal, right-aligned in two columns and followed by `. `: at least
/// four characters, spaces in front of the number only.
pub proof fn law_index_label_numbers_from_one(i: nat)
    ensures
        index_label_spec(i).len() >= 4,
        index_label_spec(i) == pad_left(decimal(i + 1), 2) + ". "@,
        crate::text::digits_value(decimal(i + 1)) == i + 1,
        pad_left(decimal(i + 1), 2).skip(pad_left(decimal(i + 1), 2).len() - decimal(i + 1).len())
            == decimal(i + 1),
{
    reveal_strlit(". ");
    crate::text::law_decimal_reads_back(i + 1);
    crate::text::law_pad_left_fills(decimal(i + 1), 2);
}

/// A docker row keeps its columns: the name cell is 39 characters (the name
/// cut to 38, padded with spaces, then one space) and begins with the cut
/// name; the CPU cell is at least 8 characters and ends with the CPU text,
/// with spaces in front.
pub proof fn law_docker_row_columns(svc: DockerSvc)
    ensures
        docker_row_spec(svc).0.len() == 39,
        docker_row_spec(svc).0.take(truncated(svc.name@, 38).len() as int) == truncated(svc.name@, 38),
        docker_row_spec(svc).0.last() == ' ',
        docker_row_spec(svc).1.len() == if svc.cpu@.len() < 8 { 8 } else { svc.cpu@.len() },
        docker_row_spec(svc).1.skip(docker_row_spec(svc).1.len() - svc.cpu@.len()) == svc.cpu@,
{
    crate::text::law_truncated_fits(svc.name@, 38);
    let t = truncated(svc.name@, 38);
    crate::text::law_pad_right_fills(t, 38);
    crate::text::law_pad_left_fills(svc.cpu@, 8);
    let p = pad_right(t, 38);
    assert(p.push(' ').take(t.len() as int) == p.take(t.len() as int));
}

/// The number of pane lines that the todo `k`-line bodies take: each body
/// at least one line.
pub open spec fn body_lines_total(counts: Seq<usize>) -> nat
    decreases counts.len(),
{
    if counts.len() == 0 {
        0
    } else {
        body_lines_total(counts.drop_last()) + if counts.last() > 0 {
            counts.last() as nat
        } else {
            1
        }
    }
}

/// The todo pane has one numbered line per todo, each body line after the
/// first on an indented line of its own, and one blank line between two
/// todos: for `n` todos it is `n - 1` lines longer than their bodies, and
/// the pane ends with the last todo's block.
pub proof fn law_todo_rows_layout(counts: Seq<usize>)
    ensures
        counts.len() > 0 ==> todo_rows_spec(counts).len() == body_lines_total(counts) + counts.len()
            - 1,
        counts.len() == 0 ==> todo_rows_spec(counts).len() == 0,
        counts.len() > 0 ==> todo_rows_spec(counts).skip(
            todo_rows_spec(counts).len() - todo_block((counts.len() - 1) as nat, counts.last() as nat).len(),
        ) == todo_block((counts.len() - 1) as nat, counts.last() as nat),
        counts.len() > 0 ==> todo_rows_spec(counts)[0] == (TodoRow::Numbered {
            todo: 0,
            body_line: if counts[0] > 0 { Some(0usize) } else { None },
        }),
    decreases counts.len(),
{
    if counts.len() > 1 {
        law_todo_rows_layout(counts.drop_last());
        assert(counts.drop_last()[0] == counts[0]);
        let prev = todo_rows_spec(counts.drop_last());
        let blk = todo_block((counts.len() - 1) as nat, counts.last() as nat);
        assert(blk.len() == if counts.last() > 0 { counts.last() as nat } else { 1 });
        assert((prev + seq![TodoRow::Blank] + blk).skip((prev.len() + 1) as int) == blk);
    } else if counts.len() == 1 {
        assert(counts.drop_last().len() == 0);
        assert(body_lines_total(counts.drop_last()) == 0);
        let blk = todo_block(0, counts[0] as nat);
        assert(blk.len() == if counts[0] > 0 { counts[0] as nat } else { 1 });
        assert(blk.skip(0) == blk);
    }
}

} // verus!
