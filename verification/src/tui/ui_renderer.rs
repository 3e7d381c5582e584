//! What a front end draws: the rows of the window as text, the row to
//! highlight, the title of the list and the line of the filter.

use crate::text::text_of;
use crate::tui::app_state::{AppMode, AppView, Node, SelectableItem, SelectionState, TuiApp};
use crate::tui::session::visible_rows;
use crate::tui::viewport::{position_in, spec_position};
use vstd::prelude::*;
use vstd::string::StringExecFns;

verus! {

/// How many rows the help text takes.
pub const HELP_LINES: u16 = 2;

/// How many rows a frame adds around its content.
pub const FRAME_ROWS: u16 = 2;

/// How many rows the filter input takes while it is shown.
pub const FILTER_INPUT_ROWS: u16 = 3;

/// The first line of the help text.
pub open spec fn help_first_line() -> Seq<char> {
    "Arrows/jk: Nav | Space/Enter: Sel | Tab/o: Fold | y: Confirm | q/Esc: Quit"@
}

/// The second line of the help text.
pub open spec fn help_second_line() -> Seq<char> {
    "a: Sel All Vis | d: Desel All | *: Expand All | -: Collapse All | /: Filter"@
}

/// The two lines of the help text.
pub fn help_text() -> (lines: (String, String))
    ensures
        lines.0@ == help_first_line(),
        lines.1@ == help_second_line(),
{
    (
        String::from_str(
            "Arrows/jk: Nav | Space/Enter: Sel | Tab/o: Fold | y: Confirm | q/Esc: Quit",
        ),
        String::from_str(
            "a: Sel All Vis | d: Desel All | *: Expand All | -: Collapse All | /: Filter",
        ),
    )
}

/// The mark that shows how much of an item is selected.
pub open spec fn selection_mark(state: SelectionState) -> Seq<char> {
    match state {
        SelectionState::NotSelected => "[ ] "@,
        SelectionState::PartiallySelected => "[-] "@,
        SelectionState::FullySelected => "[x] "@,
    }
}

/// The mark that shows whether a directory is expanded; a file gets a
/// blank of the same width.
pub open spec fn expansion_mark(is_dir: bool, expanded: bool) -> Seq<char> {
    if is_dir {
        if expanded {
            "[-] "@
        } else {
            "[+] "@
        }
    } else {
        "    "@
    }
}

/// The text of the row of an item: the two marks and the label.
pub open spec fn spec_item_line(node: Node) -> Seq<char> {
    expansion_mark(node.is_dir, node.expanded) + selection_mark(node.state) + node.label
}

/// The rows of the visible list that the window shows.
pub open spec fn window_rows(v: AppView) -> Seq<usize> {
    let rows = visible_rows(v);
    let end = if v.scroll + v.height < rows.len() {
        v.scroll + v.height
    } else {
        rows.len() as int
    };
    if v.scroll <= end {
        rows.subrange(v.scroll as int, end)
    } else {
        Seq::empty()
    }
}

/// The texts of the rows that the window shows.
pub open spec fn window_lines(v: AppView) -> Seq<Seq<char>> {
    Seq::new(window_rows(v).len(), |k: int| spec_item_line(v.nodes[window_rows(v)[k] as int]))
}

/// The row of the window to highlight: that of the cursor, where the
/// window shows it.
pub open spec fn spec_highlighted_row(v: AppView) -> Option<usize> {
    match spec_position(visible_rows(v), v.selection) {
        Some(pos) => if v.scroll <= pos < v.scroll + v.height {
            Some((pos - v.scroll) as usize)
        } else {
            None
        },
        None => None,
    }
}

/// The title of the list: it names the filter while one is set and the
/// controller is back in normal mode.
pub open spec fn spec_list_title(v: AppView) -> Seq<char> {
    if v.filter.len() > 0 && v.mode == AppMode::Normal {
        "Files (Filter: '"@ + v.filter + "')"@
    } else {
        "Select files/directories"@
    }
}

/// The line of the filter input: a slash and the filter text.
pub open spec fn spec_filter_line(v: AppView) -> Seq<char> {
    "/"@ + v.filter
}

/// The height of the block above the list: the framed help text and,
/// while the filter is being typed, the filter input.
pub open spec fn spec_top_block_height(mode: AppMode) -> int {
    if mode == AppMode::Filtering {
        7
    } else {
        4
    }
}

/// The column of the text cursor in a filter input whose frame starts at
/// column `left`: behind the frame, the slash and the characters before the
/// cursor, and never past the last column there is.
pub open spec fn spec_cursor_column(left: int, cursor: int) -> int {
    if left + cursor + 2 > u16::MAX {
        u16::MAX as int
    } else {
        left + cursor + 2
    }
}

/// The height of the block above the list.
pub fn top_block_height(mode: AppMode) -> (rows: u16)
    ensures
        rows == spec_top_block_height(mode),
{
    match mode {
        AppMode::Filtering => HELP_LINES + FRAME_ROWS + FILTER_INPUT_ROWS,
        AppMode::Normal => HELP_LINES + FRAME_ROWS,
    }
}

/// The height of the framed help text.
pub fn help_block_height() -> (rows: u16)
    ensures
        rows == 4,
{
    HELP_LINES + FRAME_ROWS
}

/// How many rows of the list fit into a framed area of `area_height`
/// rows.
pub fn list_height(area_height: u16) -> (rows: usize)
    ensures
        rows == if area_height >= 2 {
            area_height - 2
        } else {
            0
        },
{
    if area_height >= FRAME_ROWS {
        (area_height - FRAME_ROWS) as usize
    } else {
        0
    }
}

/// The column of the text cursor in the filter input.
pub fn cursor_column(left: u16, cursor: usize) -> (column: u16)
    ensures
        column == spec_cursor_column(left as int, cursor as int),
{
    let room: u16 = u16::MAX - left;
    if room < 2 || cursor > (room - 2) as usize {
        u16::MAX
    } else {
        left + cursor as u16 + 2
    }
}

/// The text of the row of an item.
pub fn item_line(item: &SelectableItem) -> (line: String)
    ensures
        line@ == spec_item_line(item@),
{
    let mut line = String::from_str(
        if item.is_dir {
            if item.is_expanded {
                "[-] "
            } else {
                "[+] "
            }
        } else {
            "    "
        },
    );
    line.append(
        match item.state {
            SelectionState::NotSelected => "[ ] ",
            SelectionState::PartiallySelected => "[-] ",
            SelectionState::FullySelected => "[x] ",
        },
    );
    line.append(item.display_text.as_str());
    line
}

impl TuiApp {
    /// The texts of the rows that the window shows, top to bottom.
    pub fn window_lines(&self) -> (lines: Vec<String>)
        ensures
            lines@.len() == window_lines(self@).len(),
            forall|k: int| 0 <= k < lines@.len() ==> (#[trigger] lines@[k])@ == window_lines(self@)[k],
    {
        proof {
            use_type_invariant(self);
        }
        let rows = self.get_visible_item_indices();
        let count = rows.len();
        let room = count - if self.scroll_offset < count {
            self.scroll_offset
        } else {
            count
        };
        let end = if self.list_viewport_height < room {
            self.scroll_offset + self.list_viewport_height
        } else {
            count
        };
        let mut lines: Vec<String> = Vec::new();
        if self.scroll_offset > end {
            return lines;
        }
        let ghost shown = window_rows(self@);
        assert(shown == rows@.subrange(self.scroll_offset as int, end as int));
        let mut k: usize = self.scroll_offset;
        while k < end
            invariant
                self.scroll_offset <= k <= end <= count == rows@.len(),
                rows@ == visible_rows(self@),
                forall|m: int| 0 <= m < rows@.len() ==> #[trigger] rows@[m] < self.items@.len(),
                shown == window_rows(self@),
                shown == rows@.subrange(self.scroll_offset as int, end as int),
                lines@.len() == k - self.scroll_offset,
                forall|m: int|
                    0 <= m < lines@.len() ==> (#[trigger] lines@[m])@ == window_lines(self@)[m],
            decreases end - k,
        {
            lines.push(item_line(&self.items[rows[k]]));
            k += 1;
        }
        lines
    }

    /// The row of the window to highlight.
    pub fn highlighted_row(&self) -> (row: Option<usize>)
        ensures
            row == spec_highlighted_row(self@),
    {
        proof {
            use_type_invariant(self);
        }
        let rows = self.get_visible_item_indices();
        match position_in(rows.as_slice(), self.current_selection_idx) {
            Some(pos) => {
                if pos >= self.scroll_offset && pos - self.scroll_offset
                    < self.list_viewport_height {
                    Some(pos - self.scroll_offset)
                } else {
                    None
                }
            },
            None => None,
        }
    }

    /// The title of the list.
    pub fn list_title(&self) -> (title: String)
        ensures
            title@ == spec_list_title(self@),
    {
        proof {
            use_type_invariant(self);
        }
        let showing = match self.mode {
            AppMode::Normal => self.filter_input.len() > 0,
            AppMode::Filtering => false,
        };
        if showing {
            let mut title = String::from_str("Files (Filter: '");
            title.append(text_of(self.filter_input.as_slice()).as_str());
            title.append("')");
            title
        } else {
            String::from_str("Select files/directories")
        }
    }

    /// The line of the filter input.
    pub fn filter_line(&self) -> (line: String)
        ensures
            line@ == spec_filter_line(self@),
    {
        proof {
            use_type_invariant(self);
        }
        let mut line = String::from_str("/");
        line.append(text_of(self.filter_input.as_slice()).as_str());
        line
    }
}

} // verus!
