//! What is relied on of the terminal emulator `avt`.
//!
//! Nothing here is proved: each contract repeats what the source of `avt` shows.

use vstd::prelude::*;

verus! {

#[verifier::external_type_specification]
#[verifier::external_body]
pub struct ExVt(avt::Vt);

/// The size (columns, rows) of a terminal that was made by `Vt::new`. Such a terminal keeps
/// its size for good; of a terminal made in another way nothing is said here.
pub uninterp spec fn made_with(vt: avt::Vt) -> Option<(usize, usize)>;

/// The texts that a terminal has been fed, in order.
pub uninterp spec fn fed(vt: avt::Vt) -> Seq<Seq<char>>;

/// What `Vt::dump` gives for a terminal of a size that has been fed some texts.
pub uninterp spec fn dump_text(cols: usize, rows: usize, fed: Seq<Seq<char>>) -> Seq<char>;

/// The lines that `Vt::feed_str` reports as changed, for a terminal of a size that has been
/// fed some texts, the last of them by that call.
pub uninterp spec fn changed_lines(cols: usize, rows: usize, fed: Seq<Seq<char>>) -> Seq<usize>;

/// The sizes a terminal can have: a cell at least, and rows and columns that can be allotted.
pub open spec fn terminal_fits(cols: usize, rows: usize) -> bool {
    &&& 1 <= cols
    &&& 1 <= rows
    &&& 64 * cols <= isize::MAX
    &&& 64 * (rows + 1000) <= isize::MAX
}

/// Whether a terminal can have a size.
pub fn can_make_terminal(cols: usize, rows: usize) -> (possible: bool)
    ensures
        possible == terminal_fits(cols, rows),
{
    let limit: usize = (isize::MAX as usize) / 64;
    1 <= cols && 1 <= rows && cols <= limit && rows <= limit - 1000
}

/// `Vt::new` makes a blank terminal of the given size. A terminal without columns or rows
/// makes it panic, and so does a row of more than `isize::MAX` bytes.
pub assume_specification[ avt::Vt::new ](cols: usize, rows: usize) -> (vt: avt::Vt)
    requires
        terminal_fits(cols, rows),
    ensures
        made_with(vt) == Some((cols, rows)),
        fed(vt) == Seq::<Seq<char>>::empty(),
;

/// `Vt::feed_str` interprets a text and reports the changed lines, which depend on the size
/// and on what has been fed alone. A terminal made by `Vt::new` reports no change of its size.
pub assume_specification[ avt::Vt::feed_str ](vt: &mut avt::Vt, s: &str) -> (changes: (
    Vec<usize>,
    bool,
))
    requires
        made_with(*old(vt)) is Some,
    ensures
        made_with(*final(vt)) == made_with(*old(vt)),
        fed(*final(vt)) == fed(*old(vt)).push(s@),
        made_with(*old(vt)) matches Some((cols, rows)) ==> changes.0@ == changed_lines(
            cols,
            rows,
            fed(*final(vt)),
        ),
        !changes.1,
;

/// `Vt::size` tells the columns and rows.
pub assume_specification[ avt::Vt::size ](vt: &avt::Vt) -> (size: (usize, usize))
    requires
        made_with(*vt) is Some,
    ensures
        made_with(*vt) == Some(size),
;

/// `Vt::dump` gives a text that paints the screen as it is. It depends on the size and on
/// what has been fed alone.
pub assume_specification[ avt::Vt::dump ](vt: &avt::Vt) -> (text: String)
    requires
        made_with(*vt) is Some,
    ensures
        made_with(*vt) matches Some((cols, rows)) ==> text@ == dump_text(cols, rows, fed(*vt)),
;

/// Every size up to a million columns and rows can be had, and none without a cell. Beyond
/// that only what can be allotted sets a limit: 64 bytes for each column of a row, and for
/// each row and a thousand more.
pub proof fn law_sizes_that_fit(cols: usize, rows: usize)
    ensures
        terminal_fits(cols, rows) <==> cols > 0 && rows > 0 && cols <= isize::MAX / 64 && rows + 1000
            <= isize::MAX / 64,
        1 <= cols <= 1_000_000 && 1 <= rows <= 1_000_000 ==> terminal_fits(cols, rows),
        cols == 0 || rows == 0 ==> !terminal_fits(cols, rows),
{
}

} // verus!
