use gpui_base::terminal_runs::{coalesce_cells, CellView, RunStyle, RunView};

fn cell(text: &str, width: u16) -> CellView {
    CellView {
        text: text.to_string(),
        width,
        fg: None,
        bg: None,
        bold: false,
        italic: false,
        underline: false,
        inverse: false,
    }
}

fn style(fg: u32, bg: Option<u32>, bold: bool) -> RunStyle {
    RunStyle { fg, bg, bold, italic: false, underline: false }
}

#[test]
fn cells_painted_alike_merge_into_runs() {
    let fg = 0xffffff;
    let bg = 0x000000;
    let mut bold = cell("c", 1);
    bold.bold = true;
    let mut inverse = cell(" ", 1);
    inverse.inverse = true;
    let cells = vec![cell("a", 1), cell("b", 1), bold, cell("漢", 2), cell("d", 1), inverse, cell("", 0)];
    let runs = coalesce_cells(&cells, fg, bg);
    assert_eq!(
        runs,
        vec![
            RunView { text: "ab".to_string(), col_start: 0, cols: 2, style: style(fg, None, false) },
            RunView { text: "c".to_string(), col_start: 2, cols: 1, style: style(fg, None, true) },
            RunView { text: "漢d".to_string(), col_start: 3, cols: 3, style: style(fg, None, false) },
            RunView { text: " ".to_string(), col_start: 6, cols: 1, style: style(bg, Some(fg), false) },
            RunView { text: "".to_string(), col_start: 7, cols: 1, style: style(fg, None, false) },
        ]
    );
}

#[test]
fn inverse_cells_swap_their_own_colours() {
    let mut c = cell("x", 1);
    c.fg = Some(0x112233);
    c.bg = Some(0x445566);
    c.inverse = true;
    let mut plain = cell("y", 1);
    plain.fg = Some(0x112233);
    plain.bg = Some(0x445566);
    let runs = coalesce_cells(&vec![c, plain], 0xffffff, 0x000000);
    assert_eq!(runs.len(), 2);
    assert_eq!(runs[0].style, style(0x445566, Some(0x112233), false));
    assert_eq!(runs[1].style, style(0x112233, Some(0x445566), false));
    assert!(coalesce_cells(&vec![], 0, 0).is_empty());
}
