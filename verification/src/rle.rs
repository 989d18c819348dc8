//! The run-length encoding of a flattened grid.
//!
//! The cells are cut into runs from the front: a run is the longest stretch
//! of equal cells that starts where the last run ended, cut at the budget of
//! its kind. Each run is written as one token:
//!
//! * a run of `n` empty cells, `n` at most 255, as `[0, n]`;
//! * in multi mode, a run of `n` cells of colour `c`, `n` at most 128, as
//!   `[n + 127, c]`;
//! * in indexed mode, each coloured cell alone, as `[c]`;
//! * in raw-colour mode, each coloured cell alone, as `[1, r, g, b]`.
//!
//! Here `c` is the cell's value: the position of its colour in the colour
//! table plus one. It is never 0, so the encoder can use 0 for "no coloured
//! run is pending" without taking a value away from the colours.

use vstd::prelude::*;
use crate::model::Color;

verus! {

/// How coloured cells are written. The mode is chosen once per frame.
#[derive(Clone, Copy, Debug, PartialEq, Eq, Structural)]
pub enum Mode {
    /// Runs of one colour are merged, up to 128 cells a run.
    Multi,
    /// Every coloured cell is one byte, its value.
    Indexed,
    /// Every coloured cell is written with its colour's components.
    RawColor,
}

/// The mode that goes with a colour table of `table_len` entries.
pub open spec fn mode_for(table_len: nat) -> Mode {
    if table_len < 128 {
        Mode::Multi
    } else if table_len < 256 {
        Mode::Indexed
    } else {
        Mode::RawColor
    }
}

/// One run of equal cells.
pub enum RunToken {
    /// `count` empty cells.
    Empty { count: nat },
    /// `count` cells of value `cell`.
    Colored { cell: nat, count: nat },
}

/// The most cells that one run starting with `cell` may hold.
pub open spec fn run_cap(mode: Mode, cell: usize) -> nat {
    if cell == 0 {
        255
    } else if mode == Mode::Multi {
        128
    } else {
        1
    }
}

/// The length of the run that starts `cells`: the longest prefix of cells
/// equal to the first, cut at `cap`.
pub open spec fn run_length(cells: Seq<usize>, cap: nat) -> nat
    decreases cells.len(),
{
    if cells.len() == 0 || cap == 0 {
        0
    } else if cells.len() >= 2 && cap >= 2 && cells[1] == cells[0] {
        1 + run_length(cells.skip(1), (cap - 1) as nat)
    } else {
        1
    }
}

/// The token for a run of `count` cells of value `cell`.
pub open spec fn run_token(cell: usize, count: nat) -> RunToken {
    if cell == 0 {
        RunToken::Empty { count }
    } else {
        RunToken::Colored { cell: cell as nat, count }
    }
}

/// A run is not empty, stays within its cap and within the cells, and all
/// its cells are equal.
pub proof fn lemma_run_length(cells: Seq<usize>, cap: nat)
    requires
        cells.len() >= 1,
        cap >= 1,
    ensures
        1 <= run_length(cells, cap) <= cap,
        run_length(cells, cap) <= cells.len(),
        forall|j: int| 0 <= j < run_length(cells, cap) ==> #[trigger] cells[j] == cells[0],
        run_length(cells, cap) == cap || run_length(cells, cap) == cells.len() || cells[run_length(
            cells,
            cap,
        ) as int] != cells[0],
    decreases cells.len(),
{
    if cells.len() >= 2 && cap >= 2 && cells[1] == cells[0] {
        let rest = cells.skip(1);
        lemma_run_length(rest, (cap - 1) as nat);
        let m = run_length(rest, (cap - 1) as nat) as int;
        assert forall|j: int| 0 <= j < 1 + m implies #[trigger] cells[j] == cells[0] by {
            if j >= 1 {
                assert(rest[j - 1] == cells[j]);
                assert(rest[0] == cells[1]);
            }
        }
        if m < rest.len() {
            assert(rest[m] == cells[m + 1]);
            assert(rest[0] == cells[1]);
        }
    }
}

/// The tokens of `cells`, run by run from the front.
pub open spec fn run_tokens(mode: Mode, cells: Seq<usize>) -> Seq<RunToken>
    decreases cells.len(),
{
    if cells.len() == 0 {
        Seq::empty()
    } else {
        let n = run_length(cells, run_cap(mode, cells[0]));
        proof {
            lemma_run_length(cells, run_cap(mode, cells[0]));
        }
        seq![run_token(cells[0], n)] + run_tokens(mode, cells.skip(n as int))
    }
}

/// The bytes of one token. A raw-colour token takes its colour from `table`.
pub open spec fn token_bytes(mode: Mode, table: Seq<Color>, token: RunToken) -> Seq<u8> {
    match token {
        RunToken::Empty { count } => seq![0u8, count as u8],
        RunToken::Colored { cell, count } => match mode {
            Mode::Multi => seq![(count + 127) as u8, cell as u8],
            Mode::Indexed => seq![cell as u8],
            Mode::RawColor => seq![1u8, table[cell - 1].r, table[cell - 1].g, table[cell - 1].b],
        },
    }
}

/// The bytes of a sequence of tokens, one after the other.
pub open spec fn tokens_bytes(mode: Mode, table: Seq<Color>, tokens: Seq<RunToken>) -> Seq<u8>
    decreases tokens.len(),
{
    if tokens.len() == 0 {
        Seq::empty()
    } else {
        token_bytes(mode, table, tokens[0]) + tokens_bytes(mode, table, tokens.skip(1))
    }
}

/// The run-length encoded body of a frame.
pub open spec fn body_bytes(mode: Mode, table: Seq<Color>, cells: Seq<usize>) -> Seq<u8> {
    tokens_bytes(mode, table, run_tokens(mode, cells))
}

/// Every cell is empty or names an entry of a table of `table_len` colours.
pub open spec fn cells_fit(cells: Seq<usize>, table_len: nat) -> bool {
    forall|i: int| 0 <= i < cells.len() ==> #[trigger] cells[i] <= table_len
}

/// Chooses the mode for a colour table of `table_len` entries: multi below
/// 128, indexed below 256, raw-colour from 256 on.
pub fn select_mode(table_len: usize) -> (mode: Mode)
    ensures
        mode == mode_for(table_len as nat),
{
    if table_len < 128 {
        Mode::Multi
    } else if table_len < 256 {
        Mode::Indexed
    } else {
        Mode::RawColor
    }
}

/// A stretch of equal cells at the front of `cells` that ends at the cap, at
/// a different cell or with the cells is the run that starts `cells`.
proof fn lemma_run_found(cells: Seq<usize>, cap: nat, n: int)
    requires
        1 <= n <= cap,
        n <= cells.len(),
        forall|j: int| 0 <= j < n ==> #[trigger] cells[j] == cells[0],
        n == cap || n == cells.len() || cells[n] != cells[0],
    ensures
        run_length(cells, cap) == n,
    decreases n,
{
    if n >= 2 {
        let rest = cells.skip(1);
        assert(cells[1] == cells[0]);
        assert forall|j: int| 0 <= j < n - 1 implies #[trigger] rest[j] == rest[0] by {
            assert(rest[j] == cells[j + 1]);
            assert(rest[0] == cells[1]);
        }
        if n - 1 != cap - 1 && n - 1 != rest.len() {
            assert(rest[n - 1] == cells[n]);
            assert(rest[0] == cells[1]);
        }
        lemma_run_found(rest, (cap - 1) as nat, n - 1);
    }
}

/// The body of the cells from `start` on begins with the token of the run
/// of `n` cells found there.
proof fn lemma_emit_run(mode: Mode, table: Seq<Color>, cells: Seq<usize>, start: int, n: int)
    requires
        0 <= start,
        1 <= n <= run_cap(mode, cells[start]),
        start + n <= cells.len(),
        forall|j: int| start <= j < start + n ==> #[trigger] cells[j] == cells[start],
        n == run_cap(mode, cells[start]) || start + n == cells.len() || cells[start + n]
            != cells[start],
    ensures
        body_bytes(mode, table, cells.skip(start)) == token_bytes(
            mode,
            table,
            run_token(cells[start], n as nat),
        ) + body_bytes(mode, table, cells.skip(start + n)),
{
    let tail = cells.skip(start);
    let cap = run_cap(mode, cells[start]);
    assert(tail[0] == cells[start]);
    assert forall|j: int| 0 <= j < n implies #[trigger] tail[j] == tail[0] by {
        assert(tail[j] == cells[start + j]);
    }
    if n != cap && n != tail.len() {
        assert(tail[n] == cells[start + n]);
    }
    lemma_run_found(tail, cap, n);
    assert(tail.skip(n) =~= cells.skip(start + n));
    let first = run_token(cells[start], n as nat);
    let others = run_tokens(mode, cells.skip(start + n));
    assert(run_tokens(mode, tail) == seq![first] + others);
    assert((seq![first] + others).skip(1) =~= others);
    assert((seq![first] + others)[0] == first);
}

/// Writes the run-length encoded body of `cells` to the end of `out`.
///
/// The mode follows from the size of `table`. The encoder walks the cells
/// once and keeps three counters: the empty cells of a pending empty run,
/// the cells of a pending coloured run, and that run's cell value, which is
/// 0 while no coloured run is pending. A run is written when a cell of
/// another kind arrives, when it reaches its budget, and at the end.
pub fn encode_runs(cells: &Vec<usize>, table: &Vec<Color>, out: &mut Vec<u8>)
    requires
        cells_fit(cells@, table@.len()),
    ensures
        final(out)@ == old(out)@ + body_bytes(mode_for(table@.len()), table@, cells@),
{
    let mode = select_mode(table.len());
    let ghost before = out@;
    let ghost whole = before + body_bytes(mode, table@, cells@);
    let ghost mut start: int = 0;
    let mut last_color_num: u8 = 0;
    let mut zeros_in_row: u8 = 0;
    let mut colors_in_row: u8 = 0;
    assert(cells@.skip(0) =~= cells@);
    let mut i: usize = 0;
    while i < cells.len()
        invariant
            0 <= start <= i <= cells.len(),
            cells_fit(cells@, table@.len()),
            mode == mode_for(table@.len()),
            whole == before + body_bytes(mode, table@, cells@),
            out@ + body_bytes(mode, table@, cells@.skip(start)) == whole,
            i - start == zeros_in_row + colors_in_row,
            zeros_in_row == 0 || colors_in_row == 0,
            zeros_in_row < 255,
            colors_in_row < 128,
            forall|j: int| start <= j < i ==> #[trigger] cells@[j] == cells@[start],
            zeros_in_row > 0 ==> cells@[start] == 0,
            colors_in_row > 0 ==> mode == Mode::Multi && last_color_num > 0 && cells@[start]
                == last_color_num,
            colors_in_row == 0 ==> last_color_num == 0,
        decreases cells.len() - i,
    {
        let v = cells[i];
        assert(cells@[i as int] <= table@.len());
        if v == 0 {
            if colors_in_row > 0 {
                proof {
                    lemma_emit_run(mode, table@, cells@, start, colors_in_row as int);
                    lemma_token_appended(
                        out@,
                        seq![(colors_in_row + 127) as u8, last_color_num],
                        body_bytes(mode, table@, cells@.skip(i as int)),
                    );
                }
                out.push(colors_in_row + 127);
                out.push(last_color_num);
                colors_in_row = 0;
                last_color_num = 0;
                proof {
                    start = i as int;
                }
            }
            zeros_in_row += 1;
            if zeros_in_row == 255 {
                proof {
                    lemma_emit_run(mode, table@, cells@, start, 255);
                    lemma_token_appended(
                        out@,
                        seq![0u8, 255u8],
                        body_bytes(mode, table@, cells@.skip(i + 1)),
                    );
                }
                out.push(0);
                out.push(zeros_in_row);
                zeros_in_row = 0;
                proof {
                    start = i + 1;
                }
            }
        } else {
            if zeros_in_row > 0 {
                proof {
                    lemma_emit_run(mode, table@, cells@, start, zeros_in_row as int);
                    lemma_token_appended(
                        out@,
                        seq![0u8, zeros_in_row],
                        body_bytes(mode, table@, cells@.skip(i as int)),
                    );
                }
                out.push(0);
                out.push(zeros_in_row);
                zeros_in_row = 0;
                proof {
                    start = i as int;
                }
            }
            match mode {
                Mode::Multi => {
                    if last_color_num == 0 {
                        last_color_num = v as u8;
                        colors_in_row = 1;
                    } else if last_color_num == v as u8 {
                        colors_in_row += 1;
                        if colors_in_row == 128 {
                            proof {
                                lemma_emit_run(mode, table@, cells@, start, 128);
                                lemma_token_appended(
                                    out@,
                                    seq![255u8, last_color_num],
                                    body_bytes(mode, table@, cells@.skip(i + 1)),
                                );
                            }
                            out.push(colors_in_row + 127);
                            out.push(last_color_num);
                            colors_in_row = 0;
                            last_color_num = 0;
                            proof {
                                start = i + 1;
                            }
                        }
                    } else {
                        proof {
                            lemma_emit_run(mode, table@, cells@, start, colors_in_row as int);
                            lemma_token_appended(
                                out@,
                                seq![(colors_in_row + 127) as u8, last_color_num],
                                body_bytes(mode, table@, cells@.skip(i as int)),
                            );
                        }
                        out.push(colors_in_row + 127);
                        out.push(last_color_num);
                        colors_in_row = 1;
                        last_color_num = v as u8;
                        proof {
                            start = i as int;
                        }
                    }
                },
                Mode::Indexed => {
                    proof {
                        lemma_emit_run(mode, table@, cells@, start, 1);
                        lemma_token_appended(
                            out@,
                            seq![v as u8],
                            body_bytes(mode, table@, cells@.skip(i + 1)),
                        );
                    }
                    out.push(v as u8);
                    proof {
                        start = i + 1;
                    }
                },
                Mode::RawColor => {
                    let color = table[v - 1];
                    proof {
                        lemma_emit_run(mode, table@, cells@, start, 1);
                        lemma_token_appended(
                            out@,
                            seq![1u8, color.r, color.g, color.b],
                            body_bytes(mode, table@, cells@.skip(i + 1)),
                        );
                    }
                    out.push(1);
                    out.push(color.r);
                    out.push(color.g);
                    out.push(color.b);
                    proof {
                        start = i + 1;
                    }
                },
            }
        }
        i += 1;
    }
    if colors_in_row > 0 {
        proof {
            lemma_emit_run(mode, table@, cells@, start, colors_in_row as int);
            lemma_token_appended(
                out@,
                seq![(colors_in_row + 127) as u8, last_color_num],
                body_bytes(mode, table@, cells@.skip(i as int)),
            );
        }
        out.push(colors_in_row + 127);
        out.push(last_color_num);
    } else if zeros_in_row > 0 {
        proof {
            lemma_emit_run(mode, table@, cells@, start, zeros_in_row as int);
            lemma_token_appended(
                out@,
                seq![0u8, zeros_in_row],
                body_bytes(mode, table@, cells@.skip(i as int)),
            );
        }
        out.push(0);
        out.push(zeros_in_row);
    }
    assert(cells@.skip(cells@.len() as int).len() == 0);
    assert(out@ + body_bytes(mode, table@, cells@.skip(cells@.len() as int)) =~= out@);
}

/// Appending in two steps is appending once.
proof fn lemma_token_appended(out: Seq<u8>, token: Seq<u8>, rest: Seq<u8>)
    ensures
        (out + token) + rest == out + (token + rest),
        token.len() == 1 ==> out.push(token[0]) == out + token,
        token.len() == 2 ==> out.push(token[0]).push(token[1]) == out + token,
        token.len() == 4 ==> out.push(token[0]).push(token[1]).push(token[2]).push(token[3]) == out
            + token,
{
    assert((out + token) + rest =~= out + (token + rest));
    if token.len() == 1 {
        assert(out.push(token[0]) =~= out + token);
    }
    if token.len() == 2 {
        assert(out.push(token[0]).push(token[1]) =~= out + token);
    }
    if token.len() == 4 {
        assert(out.push(token[0]).push(token[1]).push(token[2]).push(token[3]) =~= out + token);
    }
}

/// A token keeps within the budget of its kind: an empty run holds 1 to 255
/// cells; a coloured run holds 1 to 128 cells in multi mode and exactly one
/// cell in the other modes, and its cell value is not 0.
pub open spec fn within_budget(mode: Mode, token: RunToken) -> bool {
    match token {
        RunToken::Empty { count } => 1 <= count <= 255,
        RunToken::Colored { cell, count } => {
            &&& cell >= 1
            &&& 1 <= count
            &&& if mode == Mode::Multi {
                count <= 128
            } else {
                count == 1
            }
        },
    }
}

/// Every token of every grid keeps within its budget. So the count byte of
/// an empty run is its count, at most 255, and the first byte of a merged
/// coloured run is its count plus 127, at most 255: neither wraps.
pub proof fn lemma_run_budget(mode: Mode, cells: Seq<usize>)
    ensures
        forall|k: int|
            0 <= k < run_tokens(mode, cells).len() ==> within_budget(
                mode,
                #[trigger] run_tokens(mode, cells)[k],
            ),
    decreases cells.len(),
{
    if cells.len() > 0 {
        let cap = run_cap(mode, cells[0]);
        lemma_run_length(cells, cap);
        let n = run_length(cells, cap);
        let rest = cells.skip(n as int);
        lemma_run_budget(mode, rest);
        let tokens = run_tokens(mode, cells);
        assert forall|k: int| 0 <= k < tokens.len() implies within_budget(
            mode,
            #[trigger] tokens[k],
        ) by {
            if k > 0 {
                assert(tokens[k] == run_tokens(mode, rest)[k - 1]);
            }
        }
    }
}

/// What a cell shows: nothing, or the colour that its value names in `table`.
pub open spec fn cell_color(table: Seq<Color>, cell: usize) -> Option<Color> {
    if cell == 0 {
        None
    } else {
        Some(table[cell - 1])
    }
}

/// What each cell of a grid shows.
pub open spec fn cell_colors(table: Seq<Color>, cells: Seq<usize>) -> Seq<Option<Color>> {
    Seq::new(cells.len(), |i: int| cell_color(table, cells[i]))
}

/// `count` cells that all show the same.
pub open spec fn repeated(shown: Option<Color>, count: nat) -> Seq<Option<Color>> {
    Seq::new(count, |i: int| shown)
}

/// `front` before what the rest of a body decodes to, if that decodes at all.
pub open spec fn decoded_after(
    front: Seq<Option<Color>>,
    rest: Option<Seq<Option<Color>>>,
) -> Option<Seq<Option<Color>>> {
    match rest {
        Some(cells) => Some(front + cells),
        None => None,
    }
}

/// What a decoder that knows the mode and the colour table reads from a
/// body: the cells it shows, or `None` where the bytes are no body.
pub open spec fn decode_body(mode: Mode, table: Seq<Color>, bytes: Seq<u8>) -> Option<
    Seq<Option<Color>>,
>
    decreases bytes.len(),
{
    if bytes.len() == 0 {
        Some(Seq::empty())
    } else if bytes[0] == 0 {
        if bytes.len() < 2 {
            None
        } else {
            decoded_after(
                repeated(None, bytes[1] as nat),
                decode_body(mode, table, bytes.skip(2)),
            )
        }
    } else {
        match mode {
            Mode::Multi => if bytes[0] < 128 || bytes.len() < 2 || bytes[1] == 0 || bytes[1]
                > table.len() {
                None
            } else {
                decoded_after(
                    repeated(Some(table[bytes[1] - 1]), (bytes[0] - 127) as nat),
                    decode_body(mode, table, bytes.skip(2)),
                )
            },
            Mode::Indexed => if bytes[0] > table.len() {
                None
            } else {
                decoded_after(
                    seq![Some(table[bytes[0] - 1])],
                    decode_body(mode, table, bytes.skip(1)),
                )
            },
            Mode::RawColor => if bytes[0] != 1 || bytes.len() < 4 {
                None
            } else {
                decoded_after(
                    seq![Some(Color { r: bytes[1], g: bytes[2], b: bytes[3] })],
                    decode_body(mode, table, bytes.skip(4)),
                )
            },
        }
    }
}

/// Encoding loses nothing: decoding the body of a grid gives back what each
/// cell shows. This holds in raw-colour mode for every table, and in the
/// other two modes for every table of fewer than 256 colours.
pub proof fn lemma_body_round_trip(mode: Mode, table: Seq<Color>, cells: Seq<usize>)
    requires
        cells_fit(cells, table.len()),
        mode == Mode::RawColor || table.len() < 256,
    ensures
        decode_body(mode, table, body_bytes(mode, table, cells)) == Some(
            cell_colors(table, cells),
        ),
    decreases cells.len(),
{
    if cells.len() == 0 {
        assert(cell_colors(table, cells) =~= Seq::empty());
    } else {
        let cap = run_cap(mode, cells[0]);
        lemma_run_length(cells, cap);
        let n = run_length(cells, cap);
        let rest = cells.skip(n as int);
        let token = run_token(cells[0], n);
        let head = token_bytes(mode, table, token);
        let tail = body_bytes(mode, table, rest);
        let bytes = body_bytes(mode, table, cells);
        assert(run_tokens(mode, cells) == seq![token] + run_tokens(mode, rest));
        assert((seq![token] + run_tokens(mode, rest)).skip(1) =~= run_tokens(mode, rest));
        assert(bytes == head + tail);
        assert(cells_fit(rest, table.len())) by {
            assert forall|i: int| 0 <= i < rest.len() implies #[trigger] rest[i]
                <= table.len() by {
                assert(rest[i] == cells[i + n]);
            }
        }
        lemma_body_round_trip(mode, table, rest);
        assert(bytes.skip(head.len() as int) =~= tail);
        assert(cells[0] <= table.len());
        let shown = cell_color(table, cells[0]);
        assert(cell_colors(table, cells) =~= repeated(shown, n) + cell_colors(table, rest)) by {
            assert forall|i: int| 0 <= i < cells.len() implies cell_colors(table, cells)[i] == (
            repeated(shown, n) + cell_colors(table, rest))[i] by {
                if i >= n {
                    assert(rest[i - n] == cells[i]);
                }
            }
        }
        if cells[0] == 0 {
            assert(bytes[0] == 0 && bytes[1] == n);
        } else {
            match mode {
                Mode::Multi => {
                    assert(bytes[0] == n + 127 && bytes[1] == cells[0]);
                },
                Mode::Indexed => {
                    assert(bytes[0] == cells[0]);
                    assert(repeated(shown, n) =~= seq![shown]);
                },
                Mode::RawColor => {
                    let color = table[cells[0] - 1];
                    assert(bytes[0] == 1 && bytes[1] == color.r && bytes[2] == color.g && bytes[3]
                        == color.b);
                    assert(repeated(shown, n) =~= seq![shown]);
                },
            }
        }
    }
}

} // verus!
