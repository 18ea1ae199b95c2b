//! Text forms of boards and solving sessions: the compact 81-character
//! form, lenient normalisation of pasted puzzle text, the plain board
//! drawing and a Markdown session report.
use vstd::prelude::*;
use vstd::string::*;
use crate::board::Board;
use crate::grid::{compact_of, digit_char, string_from_chars};
use crate::stepwise::{Step, StepKind};
use crate::text::{decimal, push_decimal, push_string, push_text};

verus! {

/// A solving session: its title, the puzzle, the solver's name and steps.
#[derive(Clone, Debug)]
pub struct SessionLog {
    pub title: String,
    pub puzzle: String,
    pub solver_name: String,
    pub steps: Vec<Step>,
}

/// Row `r` of the plain drawing: each digit ('.' when empty) and a space.
pub open spec fn board_row_text(vals: Seq<u8>, r: int) -> Seq<char> {
    Seq::new(18, |k: int| if k % 2 == 0 { digit_char(vals[r * 9 + k / 2]) } else { ' ' })
}

/// The first `n` rows of the plain drawing, each ending in a newline, with
/// a blank line after the third and sixth.
pub open spec fn board_text(vals: Seq<u8>, n: int) -> Seq<char>
    decreases n,
{
    if n <= 0 {
        Seq::empty()
    } else {
        board_text(vals, n - 1) + board_row_text(vals, n - 1) + (if (n - 1) % 3 == 2 && n - 1 != 8 {
            seq!['\n']
        } else {
            Seq::empty()
        }) + seq!['\n']
    }
}

impl Board {
    /// The plain drawing of the board: nine rows of digits separated by
    /// spaces, '.' for empty cells, a blank line between bands of boxes.
    pub fn render(&self) -> (s: String)
        requires
            self.wf(),
        ensures
            s@ == board_text(self.vals(), 9),
    {
        let mut v: Vec<char> = Vec::new();
        let mut r: usize = 0;
        while r < 9
            invariant
                r <= 9,
                self.wf(),
                v@ == board_text(self.vals(), r as int),
            decreases 9 - r,
        {
            let mut c: usize = 0;
            while c < 9
                invariant
                    r < 9,
                    c <= 9,
                    self.wf(),
                    v@ == board_text(self.vals(), r as int) + board_row_text(self.vals(), r as int).take(2 * c),
                decreases 9 - c,
            {
                let d = self.at(r * 9 + c);
                let ch = if d == 0 { '.' } else { (d + 48) as char };
                v.push(ch);
                v.push(' ');
                assert(board_row_text(self.vals(), r as int).take(2 * c + 2) =~= board_row_text(self.vals(), r as int).take(2 * c).push(ch).push(' '));
                c = c + 1;
            }
            assert(board_row_text(self.vals(), r as int).take(18) =~= board_row_text(self.vals(), r as int));
            if r % 3 == 2 && r != 8 {
                v.push('\n');
            }
            v.push('\n');
            assert(v@ =~= board_text(self.vals(), r + 1));
            r = r + 1;
        }
        string_from_chars(&v)
    }
}

/// The 81-character compact form of a board, '.' for empty cells.
pub fn board_to_sdk(b: &Board) -> (s: String)
    requires
        b.wf(),
    ensures
        s@ == compact_of(b.vals()),
{
    let mut v: Vec<char> = Vec::new();
    let mut i: usize = 0;
    while i < 81
        invariant
            i <= 81,
            b.wf(),
            v@ == compact_of(b.vals()).take(i as int),
        decreases 81 - i,
    {
        let d = b.at(i);
        let ch = if d == 0 { '.' } else { (d + 48) as char };
        v.push(ch);
        assert(v@ =~= compact_of(b.vals()).take(i + 1));
        i = i + 1;
    }
    assert(v@ =~= compact_of(b.vals()));
    string_from_chars(&v)
}

proof fn lemma_digits_of_compact(v: Seq<u8>)
    requires
        forall|k: int| 0 <= k < v.len() ==> #[trigger] v[k] <= 9,
    ensures
        crate::board::digits_of(compact_of(v)) == v,
    decreases v.len(),
{
    if v.len() > 0 {
        let w = v.drop_last();
        assert(compact_of(v).drop_last() =~= compact_of(w));
        lemma_digits_of_compact(w);
        let d = v.last();
        if d != 0 {
            assert((((d + 48) as u8) as char as u32 - 48) as u8 == d);
        }
        assert(crate::grid::char_digit(compact_of(v).last()) == Some(d));
        assert(w.push(d) =~= v);
    }
}

/// Writing a board in compact form with `board_to_sdk` and parsing the text
/// with `Board::parse` gives back the board's digits.
pub proof fn lemma_sdk_round_trip(b: Board)
    requires
        b.wf(),
    ensures
        crate::board::digits_of(compact_of(b.vals())).len() == 81,
        crate::board::digits_of(compact_of(b.vals())) == b.vals(),
{
    lemma_digits_of_compact(b.vals());
}

/// The puzzle symbols of `s`: digits 1-9 kept, '0' and '.' as '.', every
/// other character dropped.
pub open spec fn puzzle_symbols(s: Seq<char>) -> Seq<char>
    decreases s.len(),
{
    if s.len() == 0 {
        Seq::empty()
    } else {
        let rest = puzzle_symbols(s.drop_last());
        let ch = s.last();
        if '1' <= ch && ch <= '9' {
            rest.push(ch)
        } else if ch == '0' || ch == '.' {
            rest.push('.')
        } else {
            rest
        }
    }
}

/// At most the first 81 items.
pub open spec fn first_81(s: Seq<char>) -> Seq<char> {
    if s.len() <= 81 {
        s
    } else {
        s.take(81)
    }
}

/// The first 81 puzzle symbols of pasted text, or an error naming how many
/// there were when fewer than 81.
pub fn normalize_puzzle_text(raw: &str) -> (r: Result<String, String>)
    ensures
        puzzle_symbols(raw@).len() >= 81 <==> r is Ok,
        r matches Ok(s) ==> s@ == puzzle_symbols(raw@).take(81),
        r matches Err(msg) ==> msg@ == "Puzzle must contain 81 characters (digits or .): got "@ + decimal(
            puzzle_symbols(raw@).len(),
        ),
{
    let n = raw.unicode_len();
    let mut out: Vec<char> = Vec::new();
    let mut i: usize = 0;
    while i < n
        invariant
            i <= n,
            n == raw@.len(),
            out@ == first_81(puzzle_symbols(raw@.take(i as int))),
            out@.len() <= 81,
            out@.len() < 81 ==> out@.len() == puzzle_symbols(raw@.take(i as int)).len(),
        decreases n - i,
    {
        let ch = raw.get_char(i);
        assert(raw@.take(i + 1).drop_last() =~= raw@.take(i as int));
        let ghost prev = puzzle_symbols(raw@.take(i as int));
        if out.len() < 81 {
            if '1' <= ch && ch <= '9' {
                out.push(ch);
            } else if ch == '0' || ch == '.' {
                out.push('.');
            }
        }
        proof {
            let next = puzzle_symbols(raw@.take(i + 1));
            if prev.len() >= 81 {
                assert(next.take(81) =~= prev.take(81));
            } else if next.len() == 82 {
                assert(false);
            }
            assert(out@ =~= first_81(next));
        }
        i = i + 1;
    }
    assert(raw@.take(n as int) =~= raw@);
    let len = out.len();
    if len != 81 {
        let mut msg: Vec<char> = Vec::new();
        push_text(&mut msg, "Puzzle must contain 81 characters (digits or .): got ");
        push_decimal(&mut msg, len);
        return Err(string_from_chars(&msg));
    }
    Ok(string_from_chars(&out))
}

/// The report line of a step's kind.
pub open spec fn kind_line(k: StepKind) -> Seq<char> {
    match k {
        StepKind::Place { r, c, v, reason } => "- Place "@ + decimal(v as nat) + " at ("@ + decimal((r + 1) as nat)
            + ", "@ + decimal((c + 1) as nat) + ") — "@ + reason@ + "\n"@,
        StepKind::Guess { r, c, v } => "- Guess "@ + decimal(v as nat) + " at ("@ + decimal((r + 1) as nat) + ", "@
            + decimal((c + 1) as nat) + ")\n"@,
        StepKind::Backtrack => "- Backtrack\n"@,
    }
}

/// The report section of one step.
pub open spec fn step_md(s: Step) -> Seq<char> {
    "\n### Step "@ + decimal(s.index as nat) + "\n"@ + kind_line(s.kind) + "\n``\n"@ + board_text(s.board.vals(), 9)
        + "\n``\n"@
}

/// The report sections of the first `n` steps.
pub open spec fn steps_md(steps: Seq<Step>, n: int) -> Seq<char>
    decreases n,
{
    if n <= 0 {
        Seq::empty()
    } else {
        steps_md(steps, n - 1) + step_md(steps[n - 1])
    }
}

/// The Markdown report of a session.
pub open spec fn session_md(log: SessionLog) -> Seq<char> {
    "# "@ + log.title@ + "\n"@ + "Solver: "@ + log.solver_name@ + "\n"@ + "Puzzle: `"@ + log.puzzle@ + "`\n\n"@
        + "## Steps\n"@ + steps_md(log.steps@, log.steps@.len() as int)
}

/// Appends the report line of a step's kind.
fn push_kind_line(v: &mut Vec<char>, k: &StepKind)
    requires
        k matches StepKind::Place { r, c, .. } ==> r < usize::MAX && c < usize::MAX,
        k matches StepKind::Guess { r, c, .. } ==> r < usize::MAX && c < usize::MAX,
    ensures
        final(v)@ == old(v)@ + kind_line(*k),
{
    let ghost v0 = v@;
    match k {
        StepKind::Place { r, c, v: d, reason } => {
            push_text(v, "- Place ");
            push_decimal(v, *d as usize);
            push_text(v, " at (");
            push_decimal(v, *r + 1);
            push_text(v, ", ");
            push_decimal(v, *c + 1);
            push_text(v, ") — ");
            push_string(v, reason);
            push_text(v, "\n");
        },
        StepKind::Guess { r, c, v: d } => {
            push_text(v, "- Guess ");
            push_decimal(v, *d as usize);
            push_text(v, " at (");
            push_decimal(v, *r + 1);
            push_text(v, ", ");
            push_decimal(v, *c + 1);
            push_text(v, ")\n");
        },
        StepKind::Backtrack => {
            push_text(v, "- Backtrack\n");
        },
    }
    assert(v@ =~= v0 + kind_line(*k));
}

/// The Markdown report of a session: a title, the solver, the puzzle, then
/// for each step its number, what it did and the board after it.
pub fn format_session_markdown(log: &SessionLog) -> (md: String)
    requires
        forall|k: int| 0 <= k < log.steps@.len() ==> (#[trigger] log.steps@[k]).board.wf(),
        forall|k: int| 0 <= k < log.steps@.len() ==> match (#[trigger] log.steps@[k]).kind {
            StepKind::Place { r, c, .. } => r < usize::MAX && c < usize::MAX,
            StepKind::Guess { r, c, .. } => r < usize::MAX && c < usize::MAX,
            StepKind::Backtrack => true,
        },
    ensures
        md@ == session_md(*log),
{
    let mut out: Vec<char> = Vec::new();
    push_text(&mut out, "# ");
    push_string(&mut out, &log.title);
    push_text(&mut out, "\n");
    push_text(&mut out, "Solver: ");
    push_string(&mut out, &log.solver_name);
    push_text(&mut out, "\n");
    push_text(&mut out, "Puzzle: `");
    push_string(&mut out, &log.puzzle);
    push_text(&mut out, "`\n\n");
    push_text(&mut out, "## Steps\n");
    let ghost head = out@;
    let mut k: usize = 0;
    while k < log.steps.len()
        invariant
            k <= log.steps@.len(),
            out@ == head + steps_md(log.steps@, k as int),
            forall|j: int| 0 <= j < log.steps@.len() ==> (#[trigger] log.steps@[j]).board.wf(),
            forall|j: int| 0 <= j < log.steps@.len() ==> match (#[trigger] log.steps@[j]).kind {
                StepKind::Place { r, c, .. } => r < usize::MAX && c < usize::MAX,
                StepKind::Guess { r, c, .. } => r < usize::MAX && c < usize::MAX,
                StepKind::Backtrack => true,
            },
        decreases log.steps@.len() - k,
    {
        let s = &log.steps[k];
        let ghost before = out@;
        push_text(&mut out, "\n### Step ");
        push_decimal(&mut out, s.index);
        push_text(&mut out, "\n");
        push_kind_line(&mut out, &s.kind);
        push_text(&mut out, "\n``\n");
        let drawing = s.board.render();
        push_string(&mut out, &drawing);
        push_text(&mut out, "\n``\n");
        assert(out@ =~= before + step_md(log.steps@[k as int]));
        assert(out@ =~= head + steps_md(log.steps@, k + 1));
        k = k + 1;
    }
    assert(out@ =~= session_md(*log));
    string_from_chars(&out)
}


/// `normalize_puzzle_text` without the message: the first 81 puzzle
/// symbols, or `Err(())` when there are fewer.
pub fn super_simplify_normalize(raw: &str) -> (r: Result<String, ()>)
    ensures
        puzzle_symbols(raw@).len() >= 81 <==> r is Ok,
        r matches Ok(s) ==> s@ == puzzle_symbols(raw@).take(81),
{
    match normalize_puzzle_text(raw) {
        Ok(s) => Ok(s),
        Err(_) => Err(()),
    }
}

} // verus!
