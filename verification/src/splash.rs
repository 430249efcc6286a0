//! The text of the splash screen shown when `musubi` runs without a
//! subcommand: a box drawn with ANSI colours.

use vstd::prelude::*;

use crate::VERSION;

verus! {

/// Inner width of the box, between its borders.
const W: usize = 58;

/// `s` wrapped in the ANSI escape sequence that selects `code`, followed by
/// the reset sequence.
pub open spec fn painted(code: Seq<char>, s: Seq<char>) -> Seq<char> {
    "\x1b["@ + code + "m"@ + s + "\x1b[0m"@
}

/// `s` written `k` times.
pub open spec fn repeated(s: Seq<char>, k: nat) -> Seq<char>
    decreases k,
{
    if k == 0 {
        Seq::empty()
    } else {
        repeated(s, (k - 1) as nat) + s
    }
}

/// A horizontal border of the box, dimmed, between the corner pieces
/// `left` and `right`.
pub open spec fn border(left: Seq<char>, right: Seq<char>) -> Seq<char> {
    painted("2"@, left + repeated("─"@, 58) + right)
}

/// A row of the box: `content`, whose visible width is `content_len`,
/// padded with spaces to the box's width.
pub open spec fn row_text(content: Seq<char>, content_len: nat) -> Seq<char> {
    let pad: nat = if content_len + 2 <= 58 {
        (58 - 2 - content_len) as nat
    } else {
        0
    };
    painted("2"@, "│"@) + " "@ + content + repeated(" "@, pad) + " "@ + painted("2"@, "│"@)
}

/// An empty row of the box.
pub open spec fn blank_row_text() -> Seq<char> {
    row_text(Seq::empty(), 0)
}

/// The three rows of one quick-start step: its number and label, whose
/// visible width is `label_width`, its command, and an empty row.
pub open spec fn step_rows(
    num: Seq<char>,
    label: Seq<char>,
    label_width: nat,
    cmd: Seq<char>,
) -> Seq<Seq<char>> {
    seq![
        row_text("  "@ + painted("91"@, num) + "  "@ + painted("2"@, label), 5 + label_width),
        row_text("     "@ + painted("31"@, cmd), 5 + cmd.len()),
        blank_row_text(),
    ]
}

/// The lines of the splash screen, top to bottom.
pub open spec fn splash_lines() -> Seq<Seq<char>> {
    seq![
        border("╭"@, "╮"@),
        blank_row_text(),
        row_text(
            painted("1"@, painted("97"@, "musubi"@)) + "  "@ + painted("91"@, "結び"@) + "  "@
                + painted("2"@, "v"@ + VERSION@),
            15 + VERSION@.len(),
        ),
        row_text(painted("2"@, "関係性暗号 — Relational classical cipher"@), 40),
        blank_row_text(),
        border("├"@, "┤"@),
        blank_row_text(),
        row_text(painted("1"@, painted("36"@, "◆"@)) + "  Quick start"@, 14),
        blank_row_text(),
    ] + step_rows("①"@, "鍵を生成"@, 8, "musubi keygen -o my.key"@) + step_rows(
        "②"@,
        "暗号化  "@,
        8,
        "musubi encrypt -k my.key -i plain.txt -o cipher.json"@,
    ) + step_rows("③"@, "復号    "@, 8, "musubi decrypt -k my.key -i cipher.json"@) + seq![
        border("├"@, "┤"@),
        blank_row_text(),
        row_text(
            "  "@ + painted("2"@, "Docs"@) + "  "@ + painted("36"@, "https://musubi.masak1.com"@),
            33,
        ),
        row_text(
            "  "@ + painted("2"@, "Src "@) + "  "@ + painted(
                "36"@,
                "https://github.com/masaki-09/musubi"@,
            ),
            43,
        ),
        blank_row_text(),
        border("├"@, "┤"@),
        blank_row_text(),
        row_text(
            "  "@ + painted("33"@, "⚠"@) + "  "@ + painted(
                "2"@,
                "玩具暗号です。機密情報の保護には使用しないでください。"@,
            ),
            59,
        ),
        blank_row_text(),
        border("╰"@, "╯"@),
        Seq::empty(),
        "  "@ + painted("2"@, "サブコマンドのヘルプ:"@) + " "@ + painted(
            "97"@,
            "musubi <SUBCOMMAND> --help"@,
        ),
        Seq::empty(),
    ]
}

fn paint(code: &str, s: &str) -> (r: String)
    ensures
        r@ == painted(code@, s@),
{
    let mut r = String::from_str("\x1b[");
    r.append(code);
    r.append("m");
    r.append(s);
    r.append("\x1b[0m");
    r
}

/// `s` in bold.
pub fn bold(s: &str) -> (r: String)
    ensures
        r@ == painted("1"@, s@),
{
    paint("1", s)
}

/// `s` dimmed.
pub fn dim(s: &str) -> (r: String)
    ensures
        r@ == painted("2"@, s@),
{
    paint("2", s)
}

/// `s` in red.
pub fn red(s: &str) -> (r: String)
    ensures
        r@ == painted("31"@, s@),
{
    paint("31", s)
}

/// `s` in bright red.
pub fn bright_red(s: &str) -> (r: String)
    ensures
        r@ == painted("91"@, s@),
{
    paint("91", s)
}

/// `s` in bright white.
pub fn white(s: &str) -> (r: String)
    ensures
        r@ == painted("97"@, s@),
{
    paint("97", s)
}

/// `s` in cyan.
pub fn cyan(s: &str) -> (r: String)
    ensures
        r@ == painted("36"@, s@),
{
    paint("36", s)
}

/// `s` in yellow.
pub fn yellow(s: &str) -> (r: String)
    ensures
        r@ == painted("33"@, s@),
{
    paint("33", s)
}

/// `s` appended to `out` `k` times.
fn push_repeated(out: &mut String, s: &str, k: usize)
    ensures
        final(out)@ == old(out)@ + repeated(s@, k as nat),
{
    let mut i: usize = 0;
    while i < k
        invariant
            0 <= i <= k,
            out@ == old(out)@ + repeated(s@, i as nat),
        decreases k - i,
    {
        out.append(s);
        proof {
            assert(repeated(s@, (i + 1) as nat) == repeated(s@, i as nat) + s@);
        }
        i = i + 1;
    }
}

fn border_line(left: &str, right: &str) -> (r: String)
    ensures
        r@ == border(left@, right@),
{
    let mut inner = String::from_str(left);
    push_repeated(&mut inner, "─", W);
    inner.append(right);
    dim(inner.as_str())
}

/// The top border of the box.
pub fn rule() -> (r: String)
    ensures
        r@ == border("╭"@, "╮"@),
{
    border_line("╭", "╮")
}

/// The bottom border of the box.
pub fn rule_bottom() -> (r: String)
    ensures
        r@ == border("╰"@, "╯"@),
{
    border_line("╰", "╯")
}

/// A divider inside the box.
pub fn rule_mid() -> (r: String)
    ensures
        r@ == border("├"@, "┤"@),
{
    border_line("├", "┤")
}

/// One row of the box: `content`, whose visible width is `content_len`
/// (without escape codes), padded to the box's width.
pub fn row(content: &str, content_len: usize) -> (r: String)
    requires
        content_len + 2 <= usize::MAX,
    ensures
        r@ == row_text(content@, content_len as nat),
{
    let pad = W.saturating_sub(2 + content_len);
    let mut r = dim("│");
    r.append(" ");
    r.append(content);
    push_repeated(&mut r, " ", pad);
    r.append(" ");
    let right = dim("│");
    r.append(right.as_str());
    r
}

/// An empty row of the box.
pub fn blank_row() -> (r: String)
    ensures
        r@ == blank_row_text(),
{
    proof {
        reveal_strlit("");
    }
    row("", 0)
}

fn push_step(v: &mut Vec<String>, num: &str, label: &str, label_width: usize, cmd: &str)
    requires
        label_width < 1000,
        cmd@.len() < 1000,
    ensures
        final(v)@.len() == old(v)@.len() + 3,
        forall|i: int| 0 <= i < old(v)@.len() ==> final(v)@[i] == old(v)@[i],
        final(v)@[old(v)@.len() as int]@ == step_rows(num@, label@, label_width as nat, cmd@)[0],
        final(v)@[old(v)@.len() + 1int]@ == step_rows(num@, label@, label_width as nat, cmd@)[1],
        final(v)@[old(v)@.len() + 2int]@ == step_rows(num@, label@, label_width as nat, cmd@)[2],
{
    let mut step_line = String::from_str("  ");
    let n = bright_red(num);
    step_line.append(n.as_str());
    step_line.append("  ");
    let l = dim(label);
    step_line.append(l.as_str());
    let step_vis = 2 + 1 + 2 + label_width;
    v.push(row(step_line.as_str(), step_vis));
    let mut cmd_line = String::from_str("     ");
    let c = red(cmd);
    cmd_line.append(c.as_str());
    let cmd_vis = 5 + cmd.unicode_len();
    v.push(row(cmd_line.as_str(), cmd_vis));
    v.push(blank_row());
}

/// The lines of the splash screen, with their ANSI colours.
pub fn build_lines() -> (r: Vec<String>)
    ensures
        r@.len() == splash_lines().len(),
        forall|i: int| 0 <= i < r@.len() ==> #[trigger] r@[i]@ == splash_lines()[i],
{
    proof {
        reveal_strlit("0.2.0");
    }
    let mut v: Vec<String> = Vec::new();
    v.push(rule());
    v.push(blank_row());
    let mut title = bold(white("musubi").as_str());
    title.append("  ");
    title.append(bright_red("結び").as_str());
    title.append("  ");
    let mut version = String::from_str("v");
    version.append(VERSION);
    title.append(dim(version.as_str()).as_str());
    let vis = 6 + 2 + 4 + 2 + 1 + VERSION.unicode_len();
    v.push(row(title.as_str(), vis));
    let tagline = dim("関係性暗号 — Relational classical cipher");
    v.push(row(tagline.as_str(), 10 + 3 + 27));
    v.push(blank_row());
    v.push(rule_mid());
    v.push(blank_row());
    let mut label = bold(cyan("◆").as_str());
    label.append("  Quick start");
    v.push(row(label.as_str(), 1 + 13));
    v.push(blank_row());
    proof {
        reveal_strlit("musubi keygen -o my.key");
        reveal_strlit("musubi encrypt -k my.key -i plain.txt -o cipher.json");
        reveal_strlit("musubi decrypt -k my.key -i cipher.json");
    }
    let ghost head = v@;
    push_step(&mut v, "①", "鍵を生成", 8, "musubi keygen -o my.key");
    push_step(&mut v, "②", "暗号化  ", 8, "musubi encrypt -k my.key -i plain.txt -o cipher.json");
    push_step(&mut v, "③", "復号    ", 8, "musubi decrypt -k my.key -i cipher.json");
    let ghost steps = v@;
    v.push(rule_mid());
    v.push(blank_row());
    let mut docs = String::from_str("  ");
    docs.append(dim("Docs").as_str());
    docs.append("  ");
    docs.append(cyan("https://musubi.masak1.com").as_str());
    v.push(row(docs.as_str(), 2 + 4 + 2 + 25));
    let mut src = String::from_str("  ");
    src.append(dim("Src ").as_str());
    src.append("  ");
    src.append(cyan("https://github.com/masaki-09/musubi").as_str());
    v.push(row(src.as_str(), 2 + 4 + 2 + 35));
    v.push(blank_row());
    v.push(rule_mid());
    v.push(blank_row());
    let mut warn = String::from_str("  ");
    warn.append(yellow("⚠").as_str());
    warn.append("  ");
    warn.append(dim("玩具暗号です。機密情報の保護には使用しないでください。").as_str());
    v.push(row(warn.as_str(), 2 + 1 + 2 + 54));
    v.push(blank_row());
    v.push(rule_bottom());
    v.push(String::new());
    let mut tip = String::from_str("  ");
    tip.append(dim("サブコマンドのヘルプ:").as_str());
    tip.append(" ");
    tip.append(white("musubi <SUBCOMMAND> --help").as_str());
    v.push(tip);
    v.push(String::new());
    proof {
        let lines = splash_lines();
        assert(lines.len() == v@.len());
        assert forall|i: int| 0 <= i < v@.len() implies #[trigger] v@[i]@ == lines[i] by {
            if 9 <= i < 18 {
                assert(v@[i] == steps[i]);
            }
        }
    }
    v
}

} // verus!
