//! Strings as sequences of characters, and the text of a board: rows of
//! characters joined by `/`.

use vstd::prelude::*;

verus! {

/// `String::push` of the standard library appends one character to the end
/// of the string and leaves the characters before it as they were.
pub assume_specification[ String::push ](s: &mut String, c: char)
    ensures
        final(s)@ == old(s)@.push(c),
;

/// The rows of `text`: the pieces between its `/` characters. A text without
/// `/` is one row; a text with `k` of them has `k + 1` rows, some of which
/// may be empty.
pub open spec fn split_rows(text: Seq<char>) -> Seq<Seq<char>>
    decreases text.len(),
{
    if text.len() == 0 {
        seq![Seq::<char>::empty()]
    } else {
        let before = split_rows(text.drop_last());
        if text.last() == '/' {
            before.push(Seq::<char>::empty())
        } else {
            before.update(before.len() - 1, before.last().push(text.last()))
        }
    }
}

/// The rows joined by `/`.
pub open spec fn join_rows(rows: Seq<Seq<char>>) -> Seq<char>
    decreases rows.len(),
{
    if rows.len() == 0 {
        Seq::<char>::empty()
    } else if rows.len() == 1 {
        rows[0]
    } else {
        join_rows(rows.drop_last()) + seq!['/'] + rows.last()
    }
}

/// No character of the row is `/`.
pub open spec fn plain(row: Seq<char>) -> bool {
    forall|i: int| 0 <= i < row.len() ==> row[i] != '/'
}

/// Every text has at least one row, and no row holds a `/`.
pub proof fn lemma_split_rows_plain(text: Seq<char>)
    ensures
        split_rows(text).len() >= 1,
        forall|r: int| 0 <= r < split_rows(text).len() ==> plain(#[trigger] split_rows(text)[r]),
    decreases text.len(),
{
    if text.len() > 0 {
        lemma_split_rows_plain(text.drop_last());
    }
}

/// Joining the rows of a text gives the text back.
pub proof fn lemma_join_split(text: Seq<char>)
    ensures
        join_rows(split_rows(text)) == text,
    decreases text.len(),
{
    if text.len() > 0 {
        let shorter = text.drop_last();
        let before = split_rows(shorter);
        let rows = split_rows(text);
        lemma_join_split(shorter);
        lemma_split_rows_plain(shorter);
        assert(text == shorter.push(text.last()));
        if text.last() == '/' {
            assert(rows.drop_last() == before);
            assert(join_rows(rows) == shorter + seq!['/'] + Seq::<char>::empty());
        } else if before.len() == 1 {
            assert(join_rows(rows) == before[0].push(text.last()));
        } else {
            assert(rows.drop_last() == before.drop_last());
            assert(join_rows(rows) == join_rows(before.drop_last()) + seq!['/']
                + before.last().push(text.last()));
            assert(join_rows(before) == join_rows(before.drop_last()) + seq!['/']
                + before.last());
        }
    }
}

/// Appending a row without `/` to a text lengthens the last row of the text.
pub proof fn lemma_split_append(text: Seq<char>, row: Seq<char>)
    requires
        plain(row),
    ensures
        split_rows(text + row) == split_rows(text).update(
            split_rows(text).len() - 1,
            split_rows(text).last() + row,
        ),
    decreases row.len(),
{
    lemma_split_rows_plain(text);
    let rows = split_rows(text);
    if row.len() == 0 {
        assert(text + row == text);
        assert(rows.last() + row == rows.last());
        assert(rows.update(rows.len() - 1, rows.last()) == rows);
    } else {
        let shorter = row.drop_last();
        lemma_split_append(text, shorter);
        assert((text + row).drop_last() == text + shorter);
        assert((rows.last() + shorter).push(row.last()) == rows.last() + row);
    }
}

/// Splitting the joined rows gives the rows back, where there is at least
/// one row and no row holds a `/`.
pub proof fn lemma_split_join(rows: Seq<Seq<char>>)
    requires
        rows.len() >= 1,
        forall|r: int| 0 <= r < rows.len() ==> plain(#[trigger] rows[r]),
    ensures
        split_rows(join_rows(rows)) == rows,
    decreases rows.len(),
{
    let none = Seq::<char>::empty();
    if rows.len() == 1 {
        lemma_split_append(none, rows[0]);
        assert(none + rows[0] == rows[0]);
        assert(split_rows(none) == seq![none]);
        assert(seq![none].update(0, none + rows[0]) == rows);
    } else {
        let init = rows.drop_last();
        lemma_split_join(init);
        let head = join_rows(init) + seq!['/'];
        assert(head.drop_last() == join_rows(init));
        assert(split_rows(head) == init.push(none));
        lemma_split_append(head, rows.last());
        assert(init.push(none).update(init.len() as int, none + rows.last()) == rows);
    }
}

} // verus!
