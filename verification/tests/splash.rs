use musubi::splash::{blank_row, bold, build_lines, cyan, dim, row, rule, rule_bottom, rule_mid};

#[test]
fn colours_wrap_text() {
    assert_eq!(bold("x"), "\x1b[1mx\x1b[0m");
    assert_eq!(dim("ab"), "\x1b[2mab\x1b[0m");
    assert_eq!(cyan("◆"), "\x1b[36m◆\x1b[0m");
}

#[test]
fn rows_are_padded_to_the_box_width() {
    let r = row("ab", 2);
    let expected = format!("\x1b[2m│\x1b[0m ab{} \x1b[2m│\x1b[0m", " ".repeat(54));
    assert_eq!(r, expected);
    let wide = row("x", 100);
    assert_eq!(wide, "\x1b[2m│\x1b[0m x \x1b[2m│\x1b[0m");
    assert_eq!(blank_row(), format!("\x1b[2m│\x1b[0m {} \x1b[2m│\x1b[0m", " ".repeat(56)));
}

#[test]
fn borders_span_the_box() {
    assert_eq!(rule(), format!("\x1b[2m╭{}╮\x1b[0m", "─".repeat(58)));
    assert_eq!(rule_mid(), format!("\x1b[2m├{}┤\x1b[0m", "─".repeat(58)));
    assert_eq!(rule_bottom(), format!("\x1b[2m╰{}╯\x1b[0m", "─".repeat(58)));
}

#[test]
fn splash_has_all_lines() {
    let lines = build_lines();
    assert_eq!(lines.len(), 31);
    assert_eq!(lines[0], rule());
    assert!(lines[2].contains("musubi"));
    assert!(lines[2].contains("v0.2.0"));
    assert!(lines[10].contains("musubi keygen -o my.key"));
    assert_eq!(lines[28], "");
    assert!(lines[29].contains("musubi <SUBCOMMAND> --help"));
}

/// The columns that `s` takes on a terminal once its colour codes are
/// removed: the CJK characters of the splash take two, the others one.
fn visible_width(s: &str) -> usize {
    let mut width = 0;
    let mut in_escape = false;
    for c in s.chars() {
        if in_escape {
            if c == 'm' {
                in_escape = false;
            }
            continue;
        }
        if c == '\x1b' {
            in_escape = true;
            continue;
        }
        let code = c as u32;
        let wide = (0x3000..=0x9FFF).contains(&code) || (0xFF00..=0xFF60).contains(&code);
        width += if wide { 2 } else { 1 };
    }
    width
}

#[test]
fn splash_rows_close_at_the_border() {
    let lines = build_lines();
    let border = visible_width(&rule());
    assert_eq!(border, 60);
    for (i, line) in lines.iter().enumerate().take(27).skip(1) {
        if i == 13 || i == 25 {
            // these two rows hold more than the box: nothing pads them
            assert!(visible_width(line) > border, "row {i}");
        } else {
            assert_eq!(visible_width(line), border, "row {i}: {line}");
        }
    }
    assert_eq!(visible_width(&lines[3]), border);
    assert_eq!(visible_width(&lines[7]), border);
    assert_eq!(visible_width(&lines[9]), border);
}
