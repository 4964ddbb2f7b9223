//! Errors of the command-line tools, and the report that is shown when the
//! compiler rejects a generated program.

use crate::paint::{may_show, Paint, show};
use crate::seqs::leading;
use crate::text::{
    after_last, blank, find, find_in, joined, leading_spaces, lines, position, position_of,
    slice, split_lines, starts_with, tail_after_last, to_chars, to_string, trim, trim_start,
    trimmed, trimmed_start,
};
use vstd::prelude::*;
use vstd::string::StringExecFns;

verus! {

/// One stretch of a report line: a text and how it is to be shown.
pub struct Piece {
    pub paint: Paint,
    pub text: Vec<char>,
}

impl DeepView for Piece {
    type V = (Paint, Seq<char>);

    open spec fn deep_view(&self) -> (Paint, Seq<char>) {
        (self.paint, self.text@)
    }
}

/// Advice on a common mistake: what went wrong, and ways to mend it.
pub struct Suggestion {
    pub problem: String,
    pub fixes: Vec<String>,
}

impl DeepView for Suggestion {
    type V = (Seq<char>, Seq<Seq<char>>);

    open spec fn deep_view(&self) -> (Seq<char>, Seq<Seq<char>>) {
        (self.problem@, self.fixes.deep_view())
    }
}

/// A line of two pieces: two blanks, then `text` in `paint`.
pub open spec fn indented(paint: Paint, text: Seq<char>) -> Seq<(Paint, Seq<char>)> {
    seq![(Paint::Plain, "  "@), (paint, text)]
}

/// A line of one plain piece.
pub open spec fn plain_line(text: Seq<char>) -> Seq<(Paint, Seq<char>)> {
    seq![(Paint::Plain, text)]
}

/// The characters that make up a line of carets under a code line.
pub open spec fn caret_mark() -> spec_fn(char) -> bool {
    |c: char| c == '^' || c == ' ' || c == '|'
}

/// A line that, after the white space at its front, holds nothing but
/// carets, blanks and bars, and holds at least one caret.
pub open spec fn is_caret_line(line: Seq<char>) -> bool {
    let t = trim_start(line);
    leading(t, caret_mark()) == t.len() && position(line, '^') < line.len()
}

/// A location line with the directories cut from its path: the arrow, the
/// file's name, and what follows the first colon. Nothing where the line has
/// no arrow, or no colon after it.
pub open spec fn simplified_location(line: Seq<char>) -> Option<Seq<char>> {
    match find(line, "-->"@) {
        None => None,
        Some(arrow) => {
            let rest = trim(line.skip(arrow + 3));
            let colon = position(rest, ':') as int;
            if colon >= rest.len() {
                None
            } else {
                Some("--> "@ + after_last(rest.take(colon), '/') + rest.skip(colon))
            }
        },
    }
}

/// How one line of the compiler's output is shown.
pub open spec fn shown_line(line: Seq<char>) -> Seq<(Paint, Seq<char>)> {
    let t = trim_start(line);
    if "error:"@.is_prefix_of(line) || "error["@.is_prefix_of(line) {
        indented(Paint::RedBold, line)
    } else if "warning:"@.is_prefix_of(line) || "warning["@.is_prefix_of(line) {
        indented(Paint::YellowBold, line)
    } else if "-->"@.is_prefix_of(t) {
        match simplified_location(line) {
            Some(s) => indented(Paint::Cyan, s),
            None => indented(Paint::Cyan, line),
        }
    } else if "|"@.is_prefix_of(t) {
        indented(Paint::Cyan, line)
    } else if is_caret_line(line) {
        indented(Paint::RedBold, line)
    } else if "= help:"@.is_prefix_of(t) {
        indented(Paint::Blue, line)
    } else if "= note:"@.is_prefix_of(t) {
        indented(Paint::Cyan, line)
    } else if !blank(line) {
        indented(Paint::Plain, line)
    } else {
        Seq::empty()
    }
}

/// The head of a report: its title, and the user's expression if one is
/// given.
pub open spec fn report_head(expression: Option<Seq<char>>) -> Seq<Seq<(Paint, Seq<char>)>> {
    seq![seq![(Paint::RedBold, "✗ Compilation Error"@)], Seq::empty()] + match expression {
        Some(e) => seq![
            seq![
                (Paint::Plain, "  "@),
                (Paint::CyanBold, "Your expression:"@),
                (Paint::Plain, " "@),
                (Paint::Yellow, e),
            ],
            Seq::empty(),
        ],
        None => Seq::empty(),
    }
}

/// The part of a report that gives advice, if there is any to give.
pub open spec fn report_advice(suggestion: Option<(Seq<char>, Seq<Seq<char>>)>) -> Seq<
    Seq<(Paint, Seq<char>)>,
> {
    match suggestion {
        Some(s) => seq![
            indented(Paint::RedBold, "Problem:"@),
            plain_line("    "@ + s.0),
            Seq::empty(),
            indented(Paint::BlueBold, "How to fix:"@),
        ] + s.1.map_values(|fix: Seq<char>| plain_line("    • "@ + fix)) + seq![Seq::empty()],
        None => Seq::empty(),
    }
}

/// The foot of a report: an empty line and a tip.
pub open spec fn report_foot() -> Seq<Seq<(Paint, Seq<char>)>> {
    seq![
        Seq::empty(),
        seq![
            (
                Paint::Blue,
                "Tip: Check your expression syntax and ensure all parentheses match"@,
            ),
        ],
    ]
}

/// A report on a failed compilation, line by line: head, advice, the
/// compiler's lines, foot.
pub open spec fn report(
    stderr: Seq<char>,
    expression: Option<Seq<char>>,
    suggestion: Option<(Seq<char>, Seq<Seq<char>>)>,
) -> Seq<Seq<(Paint, Seq<char>)>> {
    report_head(expression) + report_advice(suggestion) + lines(stderr).map_values(
        |l: Seq<char>| shown_line(l),
    ) + report_foot()
}

/// `lines` with a line feed between each two of them.
pub open spec fn join_lines(lines: Seq<Seq<char>>) -> Seq<char>
    decreases lines.len(),
{
    if lines.len() == 0 {
        Seq::empty()
    } else if lines.len() == 1 {
        lines[0]
    } else {
        join_lines(lines.drop_last()) + seq!['\n'] + lines.last()
    }
}

/// The text of shown pieces: the pieces of each line end to end, the lines
/// with a line feed between each two of them.
pub open spec fn page(shown: Seq<Seq<Seq<char>>>) -> Seq<char> {
    join_lines(shown.map_values(|l: Seq<Seq<char>>| l.flatten()))
}

/// `shown` may come of showing the pieces of `plan`, each in its paint.
pub open spec fn may_show_all(
    plan: Seq<Seq<(Paint, Seq<char>)>>,
    shown: Seq<Seq<Seq<char>>>,
) -> bool {
    &&& shown.len() == plan.len()
    &&& forall|i: int| 0 <= i < plan.len() ==> (#[trigger] shown[i]).len() == plan[i].len()
    &&& forall|i: int, j: int|
        0 <= i < plan.len() && 0 <= j < plan[i].len() ==> may_show(
            plan[i][j].0,
            plan[i][j].1,
            #[trigger] shown[i][j],
        )
}

/// `out` may be the text of `plan`: the page of some way of showing its
/// pieces.
pub open spec fn renders(plan: Seq<Seq<(Paint, Seq<char>)>>, out: Seq<char>) -> bool {
    exists|shown: Seq<Seq<Seq<char>>>| may_show_all(plan, shown) && out == #[trigger] page(shown)
}

/// The view of an optional string slice.
pub open spec fn text_of(s: Option<&str>) -> Option<Seq<char>> {
    match s {
        Some(e) => Some(e@),
        None => None,
    }
}

/// The model of optional advice.
pub open spec fn advice_of(s: Option<&Suggestion>) -> Option<(Seq<char>, Seq<Seq<char>>)> {
    match s {
        Some(a) => Some(a.deep_view()),
        None => None,
    }
}

fn piece(paint: Paint, text: &str) -> (p: Piece)
    ensures
        p.deep_view() == (paint, text@),
{
    Piece { paint, text: to_chars(text) }
}

fn indent(paint: Paint, text: Vec<char>) -> (l: Vec<Piece>)
    ensures
        l.deep_view() == indented(paint, text@),
{
    let mut l: Vec<Piece> = Vec::new();
    l.push(piece(Paint::Plain, "  "));
    l.push(Piece { paint, text });
    assert(l.deep_view() =~= indented(paint, text@));
    l
}

fn plain(text: Vec<char>) -> (l: Vec<Piece>)
    ensures
        l.deep_view() == plain_line(text@),
{
    let mut l: Vec<Piece> = Vec::new();
    l.push(Piece { paint: Paint::Plain, text });
    assert(l.deep_view() =~= plain_line(text@));
    l
}

fn empty_line() -> (l: Vec<Piece>)
    ensures
        l.deep_view() == Seq::<(Paint, Seq<char>)>::empty(),
{
    let l: Vec<Piece> = Vec::new();
    assert(l.deep_view() =~= Seq::empty());
    l
}

fn begins(line: &Vec<char>, pat: &str) -> (b: bool)
    ensures
        b == pat@.is_prefix_of(line@),
{
    let p = to_chars(pat);
    starts_with(line, &p)
}

fn caret_line(line: &Vec<char>) -> (b: bool)
    ensures
        b == is_caret_line(line@),
{
    let t = trimmed_start(line);
    let mut i: usize = 0;
    proof {
        assert(t@.skip(0) =~= t@);
    }
    while i < t.len() && (t[i] == '^' || t[i] == ' ' || t[i] == '|')
        invariant
            i <= t.len(),
            leading(t@, caret_mark()) == i + leading(t@.skip(i as int), caret_mark()),
        decreases t.len() - i,
    {
        proof {
            assert(t@.skip(i as int).skip(1) =~= t@.skip(i as int + 1));
        }
        i += 1;
    }
    i == t.len() && position_of(line, '^') < line.len()
}

fn copy(text: &Vec<char>) -> (r: Vec<char>)
    ensures
        r@ == text@,
{
    let r = slice(text, 0, text.len());
    assert(r@ =~= text@);
    r
}

fn simplify(line: &Vec<char>) -> (r: Option<Vec<char>>)
    ensures
        r.deep_view() == simplified_location(line@),
{
    let arrow = to_chars("-->");
    match find_in(line, &arrow) {
        None => None,
        Some(at) => {
            assert(at + 3 <= line.len()) by {
                reveal_strlit("-->");
                let c = choose|c: int| crate::text::first_at(line@, "-->"@, c);
                assert(crate::text::occurs_at(line@, "-->"@, c));
            }
            let after = slice(line, at + 3, line.len());
            assert(after@ =~= line@.skip(at + 3));
            let rest = trimmed(&after);
            let colon = position_of(&rest, ':');
            if colon >= rest.len() {
                None
            } else {
                let path = slice(&rest, 0, colon);
                let name = tail_after_last(&path, '/');
                let location = slice(&rest, colon, rest.len());
                let head = to_chars("--> ");
                let out = joined(&joined(&head, &name), &location);
                proof {
                    assert(path@ =~= rest@.take(colon as int));
                    assert(location@ =~= rest@.skip(colon as int));
                    assert(out.deep_view() =~= out@);
                }
                Some(out)
            }
        },
    }
}

fn shape_line(line: &Vec<char>) -> (l: Vec<Piece>)
    ensures
        l.deep_view() == shown_line(line@),
{
    let t = trimmed_start(line);
    if begins(line, "error:") || begins(line, "error[") {
        indent(Paint::RedBold, copy(line))
    } else if begins(line, "warning:") || begins(line, "warning[") {
        indent(Paint::YellowBold, copy(line))
    } else if begins(&t, "-->") {
        match simplify(line) {
            Some(s) => {
                assert(s.deep_view() =~= s@);
                indent(Paint::Cyan, s)
            },
            None => indent(Paint::Cyan, copy(line)),
        }
    } else if begins(&t, "|") {
        indent(Paint::Cyan, copy(line))
    } else if caret_line(line) {
        indent(Paint::RedBold, copy(line))
    } else if begins(&t, "= help:") {
        indent(Paint::Blue, copy(line))
    } else if begins(&t, "= note:") {
        indent(Paint::Cyan, copy(line))
    } else if leading_spaces(line) != line.len() {
        indent(Paint::Plain, copy(line))
    } else {
        empty_line()
    }
}

/// Lays out the report on a failed compilation.
pub fn plan_report(
    stderr: &str,
    user_expression: Option<&str>,
    suggestion: Option<&Suggestion>,
) -> (plan: Vec<Vec<Piece>>)
    ensures
        plan.deep_view() == report(stderr@, text_of(user_expression), advice_of(suggestion)),
{
    let mut plan: Vec<Vec<Piece>> = Vec::new();
    let mut title: Vec<Piece> = Vec::new();
    title.push(piece(Paint::RedBold, "✗ Compilation Error"));
    assert(title.deep_view() =~= seq![(Paint::RedBold, "✗ Compilation Error"@)]);
    plan.push(title);
    plan.push(empty_line());
    if let Some(expr) = user_expression {
        let mut l: Vec<Piece> = Vec::new();
        l.push(piece(Paint::Plain, "  "));
        l.push(piece(Paint::CyanBold, "Your expression:"));
        l.push(piece(Paint::Plain, " "));
        l.push(piece(Paint::Yellow, expr));
        assert(l.deep_view() =~= seq![
            (Paint::Plain, "  "@),
            (Paint::CyanBold, "Your expression:"@),
            (Paint::Plain, " "@),
            (Paint::Yellow, expr@),
        ]);
        plan.push(l);
        plan.push(empty_line());
    }
    assert(plan.deep_view() =~= report_head(text_of(user_expression)));
    let ghost head = plan.deep_view();
    if let Some(advice) = suggestion {
        plan.push(indent(Paint::RedBold, to_chars("Problem:")));
        plan.push(plain(joined(&to_chars("    "), &to_chars(advice.problem.as_str()))));
        plan.push(empty_line());
        plan.push(indent(Paint::BlueBold, to_chars("How to fix:")));
        let ghost top = plan.deep_view();
        let ghost fixes = advice.fixes.deep_view();
        let mut k: usize = 0;
        while k < advice.fixes.len()
            invariant
                k <= advice.fixes.len(),
                fixes == advice.fixes.deep_view(),
                plan.deep_view() == top + fixes.take(k as int).map_values(
                    |fix: Seq<char>| plain_line("    • "@ + fix),
                ),
            decreases advice.fixes.len() - k,
        {
            let ghost had = plan.deep_view();
            plan.push(plain(joined(&to_chars("    • "), &to_chars(advice.fixes[k].as_str()))));
            k += 1;
            proof {
                assert(fixes[k as int - 1] == advice.fixes[k as int - 1]@);
                assert(plan.deep_view() =~= had.push(plain_line("    • "@ + fixes[k as int - 1])));
                assert(plan.deep_view() =~= top + fixes.take(k as int).map_values(
                    |fix: Seq<char>| plain_line("    • "@ + fix),
                ));
            }
        }
        let ghost listed = plan.deep_view();
        plan.push(empty_line());
        proof {
            assert(fixes.take(k as int) =~= fixes);
            let f = |fix: Seq<char>| plain_line("    • "@ + fix);
            assert(listed =~= top + fixes.map_values(f));
            assert(plan.deep_view() =~= top + fixes.map_values(f) + seq![
                Seq::<(Paint, Seq<char>)>::empty(),
            ]);
            assert(advice_of(suggestion) == Some((advice.problem@, fixes)));
            assert(top =~= head + seq![
                indented(Paint::RedBold, "Problem:"@),
                plain_line("    "@ + advice.problem@),
                Seq::empty(),
                indented(Paint::BlueBold, "How to fix:"@),
            ]);
            assert(plan.deep_view() =~= head + report_advice(advice_of(suggestion)));
        }
    } else {
        assert(plan.deep_view() =~= head + report_advice(advice_of(suggestion)));
    }
    let ghost upper = plan.deep_view();
    let all = split_lines(&to_chars(stderr));
    let ghost ls = lines(stderr@);
    let mut i: usize = 0;
    while i < all.len()
        invariant
            i <= all.len(),
            all.deep_view() == ls,
            plan.deep_view() == upper + ls.take(i as int).map_values(|l: Seq<char>| shown_line(l)),
        decreases all.len() - i,
    {
        let ghost had = plan.deep_view();
        assert(all[i as int].deep_view() =~= all[i as int]@);
        plan.push(shape_line(&all[i]));
        i += 1;
        proof {
            assert(plan.deep_view() =~= had.push(shown_line(ls[i as int - 1])));
            assert(plan.deep_view() =~= upper + ls.take(i as int).map_values(
                |l: Seq<char>| shown_line(l),
            ));
        }
    }
    proof {
        assert(ls.take(i as int) =~= ls);
    }
    let ghost body = plan.deep_view();
    plan.push(empty_line());
    let mut tip: Vec<Piece> = Vec::new();
    tip.push(
        piece(Paint::Blue, "Tip: Check your expression syntax and ensure all parentheses match"),
    );
    assert(tip.deep_view() =~= seq![
        (Paint::Blue, "Tip: Check your expression syntax and ensure all parentheses match"@),
    ]);
    plan.push(tip);
    assert(plan.deep_view() =~= body + report_foot());
    plan
}

/// Puts shown pieces together: the pieces of each line end to end, the
/// lines with a line feed between each two of them.
pub fn assemble(shown: &Vec<Vec<Vec<char>>>) -> (out: String)
    ensures
        out@ == page(shown.deep_view()),
{
    broadcast use Seq::lemma_flatten_push;

    let mut text: Vec<char> = Vec::new();
    let ghost rows = shown.deep_view().map_values(|l: Seq<Seq<char>>| l.flatten());
    let mut i: usize = 0;
    assert(rows.take(0) =~= Seq::empty());
    while i < shown.len()
        invariant
            i <= shown.len(),
            rows == shown.deep_view().map_values(|l: Seq<Seq<char>>| l.flatten()),
            text@ == join_lines(rows.take(i as int)),
        decreases shown.len() - i,
    {
        if i > 0 {
            text.push('\n');
        }
        let ghost before = text@;
        let line = &shown[i];
        let mut j: usize = 0;
        assert(line.deep_view().take(0) =~= Seq::empty());
        while j < line.len()
            invariant
                j <= line.len(),
                text@ == before + line.deep_view().take(j as int).flatten(),
            decreases line.len() - j,
        {
            let ghost had = text@;
            let part = &line[j];
            let mut k: usize = 0;
            while k < part.len()
                invariant
                    k <= part.len(),
                    text@ == had + part@.take(k as int),
                decreases part.len() - k,
            {
                text.push(part[k]);
                k += 1;
                assert(text@ =~= had + part@.take(k as int));
            }
            j += 1;
            proof {
                assert(part@.take(k as int) =~= part@);
                assert(part.deep_view() =~= part@);
                let front = line.deep_view().take(j as int - 1);
                assert(line.deep_view().take(j as int) =~= front.push(part@));
                front.lemma_flatten_push(part@);
                assert(text@ =~= before + line.deep_view().take(j as int).flatten());
            }
        }
        i += 1;
        proof {
            assert(line.deep_view().take(j as int) =~= line.deep_view());
            assert(rows[i as int - 1] == line.deep_view().flatten());
            assert(rows.take(i as int).drop_last() =~= rows.take(i as int - 1));
            assert(rows.take(i as int).last() == rows[i as int - 1]);
            if i == 1 {
                assert(text@ =~= rows[0]);
            }
        }
    }
    proof {
        assert(rows.take(i as int) =~= rows);
    }
    to_string(&text)
}

/// Shows each piece of `plan` in its paint and puts the outcome together.
pub fn render(plan: &Vec<Vec<Piece>>) -> (out: String)
    ensures
        renders(plan.deep_view(), out@),
{
    let mut shown: Vec<Vec<Vec<char>>> = Vec::new();
    let ghost p = plan.deep_view();
    let mut i: usize = 0;
    while i < plan.len()
        invariant
            i <= plan.len(),
            p == plan.deep_view(),
            may_show_all(p.take(i as int), shown.deep_view()),
        decreases plan.len() - i,
    {
        let ghost had = shown.deep_view();
        let line = &plan[i];
        let mut row: Vec<Vec<char>> = Vec::new();
        let mut j: usize = 0;
        while j < line.len()
            invariant
                j <= line.len(),
                row.len() == j,
                forall|k: int|
                    0 <= k < j ==> may_show(
                        line.deep_view()[k].0,
                        line.deep_view()[k].1,
                        #[trigger] row.deep_view()[k],
                    ),
            decreases line.len() - j,
        {
            let ghost row_had = row.deep_view();
            let part = show(&line[j].text, line[j].paint);
            assert(part.deep_view() =~= part@);
            row.push(part);
            j += 1;
            assert(row.deep_view() =~= row_had.push(part@));
        }
        shown.push(row);
        i += 1;
        proof {
            assert(shown.deep_view() =~= had.push(row.deep_view()));
            assert(p.take(i as int) =~= p.take(i as int - 1).push(line.deep_view()));
        }
    }
    proof {
        assert(p.take(i as int) =~= p);
    }
    assemble(&shown)
}

/// What can go wrong in the `lob` tool.
#[derive(Debug)]
pub enum LobError {
    /// Reading or writing failed; the system's message.
    Io(String),
    /// The compiler rejected the generated program; the report.
    Compilation(String),
    /// The cache could not be used.
    Cache(String),
    /// No working compiler was found.
    Toolchain(String),
    /// The expression cannot be run.
    InvalidExpression(String),
}

impl LobError {
    /// The error in words.
    pub fn message(&self) -> (m: String)
        ensures
            m@ == match self {
                LobError::Io(s) => "IO error: "@ + s@,
                LobError::Compilation(s) => "Compilation failed:\n"@ + s@,
                LobError::Cache(s) => "Cache error: "@ + s@,
                LobError::Toolchain(s) => "Toolchain error: "@ + s@,
                LobError::InvalidExpression(s) => "Invalid expression: "@ + s@,
            },
    {
        match self {
            LobError::Io(s) => String::from_str("IO error: ").concat(s.as_str()),
            LobError::Compilation(s) => String::from_str("Compilation failed:\n").concat(
                s.as_str(),
            ),
            LobError::Cache(s) => String::from_str("Cache error: ").concat(s.as_str()),
            LobError::Toolchain(s) => String::from_str("Toolchain error: ").concat(s.as_str()),
            LobError::InvalidExpression(s) => String::from_str("Invalid expression: ").concat(
                s.as_str(),
            ),
        }
    }

    /// The report on a failed compilation, as text for the terminal: the
    /// compiler's output `stderr` line by line, under a title and the
    /// user's expression, with a tip at the end.
    pub fn format_compilation_error(stderr: &str, user_expression: Option<&str>) -> (out: String)
        ensures
            renders(report(stderr@, text_of(user_expression), None), out@),
    {
        render(&plan_report(stderr, user_expression, None))
    }

    /// The same report with advice on a common mistake after the head.
    pub fn format_compilation_error_with(
        stderr: &str,
        user_expression: Option<&str>,
        suggestion: &Suggestion,
    ) -> (out: String)
        ensures
            renders(
                report(stderr@, text_of(user_expression), Some(suggestion.deep_view())),
                out@,
            ),
    {
        render(&plan_report(stderr, user_expression, Some(suggestion)))
    }

    /// A location line with the directories cut from its path; nothing
    /// where the line has no arrow, or no colon after it.
    pub fn simplify_error_location(line: &str) -> (r: Option<String>)
        ensures
            r.deep_view() == simplified_location(line@),
    {
        match simplify(&to_chars(line)) {
            Some(s) => {
                assert(s.deep_view() =~= s@);
                Some(to_string(&s))
            },
            None => None,
        }
    }
}

/// What can go wrong in the `flu` tool.
#[derive(Debug)]
pub enum FluError {
    /// Reading or writing failed; the system's message.
    Io(String),
    /// The compiler rejected the generated program; its output.
    Compilation(String),
    /// The cache could not be used.
    Cache(String),
    /// No program could be generated.
    CodeGen(String),
    /// No working compiler was found.
    Toolchain(String),
    /// The expression cannot be run.
    InvalidExpression(String),
}

impl FluError {
    /// The error in words.
    pub fn message(&self) -> (m: String)
        ensures
            m@ == match self {
                FluError::Io(s) => "IO error: "@ + s@,
                FluError::Compilation(s) => "Compilation failed:\n"@ + s@,
                FluError::Cache(s) => "Cache error: "@ + s@,
                FluError::CodeGen(s) => "Code generation error: "@ + s@,
                FluError::Toolchain(s) => "Toolchain error: "@ + s@,
                FluError::InvalidExpression(s) => "Invalid expression: "@ + s@,
            },
    {
        match self {
            FluError::Io(s) => String::from_str("IO error: ").concat(s.as_str()),
            FluError::Compilation(s) => String::from_str("Compilation failed:\n").concat(
                s.as_str(),
            ),
            FluError::Cache(s) => String::from_str("Cache error: ").concat(s.as_str()),
            FluError::CodeGen(s) => String::from_str("Code generation error: ").concat(s.as_str()),
            FluError::Toolchain(s) => String::from_str("Toolchain error: ").concat(s.as_str()),
            FluError::InvalidExpression(s) => String::from_str("Invalid expression: ").concat(
                s.as_str(),
            ),
        }
    }
}

} // verus!
