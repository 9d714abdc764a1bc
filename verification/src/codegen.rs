//! Strudel code for tracks laid out on the grid.
//!
//! Each lane becomes a `note("...")` pattern with one word per step: the
//! pitch as a MIDI note number, `-` for a rest, `_` for a hold. At
//! optimisation level 1 and above, a run of rests becomes one weighted rest
//! (`-@8`) and a note with the holds that follow it becomes one weighted note
//! (`60@4`). Each lane is slowed by its number of steps, so one step takes one
//! cycle whatever the lane's length, and the lanes of a track are stacked and
//! sped up by the track's steps per quarter note.
use vstd::prelude::*;
use crate::quantize::{QuantizedNote, QuantizedTrack};

verus! {

/// The character of a decimal digit.
pub open spec fn digit_str(d: int) -> Seq<char> {
    if d == 0 {
        "0"@
    } else if d == 1 {
        "1"@
    } else if d == 2 {
        "2"@
    } else if d == 3 {
        "3"@
    } else if d == 4 {
        "4"@
    } else if d == 5 {
        "5"@
    } else if d == 6 {
        "6"@
    } else if d == 7 {
        "7"@
    } else if d == 8 {
        "8"@
    } else {
        "9"@
    }
}

/// A number written in decimal, without leading zeros.
pub open spec fn decimal(n: nat) -> Seq<char>
    decreases n,
{
    if n < 10 {
        digit_str(n as int)
    } else {
        decimal(n / 10) + digit_str((n % 10) as int)
    }
}

/// The word for one step.
pub open spec fn step_text(q: QuantizedNote) -> Seq<char> {
    match q {
        QuantizedNote::Note(p) => decimal(p as nat),
        QuantizedNote::Rest => "-"@,
        QuantizedNote::Hold => "_"@,
    }
}

/// A word that lasts `k` steps: the word itself for one step, else with `@k`.
pub open spec fn weighted(t: Seq<char>, k: nat) -> Seq<char> {
    if k <= 1 {
        t
    } else {
        t + "@"@ + decimal(k)
    }
}

/// The number of steps equal to `q` in a row from `i` on.
pub open spec fn run_len(lane: Seq<QuantizedNote>, i: int, q: QuantizedNote) -> nat
    decreases lane.len() - i,
{
    if 0 <= i < lane.len() && lane[i] == q {
        1 + run_len(lane, i + 1, q)
    } else {
        0
    }
}

/// The word that starts at step `i`, and the step after the steps it covers.
/// At level 0 each step is its own word; above, rests in a row make one word,
/// and so does a note with the holds right after it.
pub open spec fn next_word(lane: Seq<QuantizedNote>, opt_level: u32, i: int) -> (Seq<char>, int) {
    if opt_level == 0 {
        (step_text(lane[i]), i + 1)
    } else {
        match lane[i] {
            QuantizedNote::Rest => {
                let k = run_len(lane, i, QuantizedNote::Rest);
                (weighted("-"@, k), i + k)
            },
            QuantizedNote::Note(p) => {
                let k = run_len(lane, i + 1, QuantizedNote::Hold);
                (weighted(decimal(p as nat), k + 1), i + 1 + k)
            },
            QuantizedNote::Hold => ("_"@, i + 1),
        }
    }
}

/// The words of a lane from step `i` on.
pub open spec fn lane_words(lane: Seq<QuantizedNote>, opt_level: u32, i: int) -> Seq<Seq<char>>
    decreases lane.len() - i,
{
    if i < 0 || i >= lane.len() {
        Seq::empty()
    } else {
        let (w, j) = next_word(lane, opt_level, i);
        if j <= i || j > lane.len() {
            Seq::empty()
        } else {
            seq![w] + lane_words(lane, opt_level, j)
        }
    }
}

/// Words separated by single spaces.
pub open spec fn join_words(ws: Seq<Seq<char>>) -> Seq<char>
    decreases ws.len(),
{
    if ws.len() == 0 {
        Seq::empty()
    } else if ws.len() == 1 {
        ws[0]
    } else {
        join_words(ws.drop_last()) + " "@ + ws.last()
    }
}

/// The pattern of one lane.
pub open spec fn lane_code(lane: Seq<QuantizedNote>, opt_level: u32) -> Seq<char> {
    "note(\""@ + join_words(lane_words(lane, opt_level, 0)) + "\").slow("@ + decimal(lane.len()) + ")"@
}

/// The patterns of the lanes, one per line; empty lanes are left out.
pub open spec fn lanes_code(lanes: Seq<Seq<QuantizedNote>>, opt_level: u32) -> Seq<char>
    decreases lanes.len(),
{
    if lanes.len() == 0 {
        Seq::empty()
    } else {
        lanes_code(lanes.drop_last(), opt_level) + if lanes.last().len() == 0 {
            Seq::empty()
        } else {
            "  "@ + lane_code(lanes.last(), opt_level) + ",\n"@
        }
    }
}

/// The code of a track: its lanes stacked, one quarter note per cycle.
pub open spec fn track_code(lanes: Seq<Seq<QuantizedNote>>, speed_mod: u32, opt_level: u32) -> Seq<char> {
    "stack(\n"@ + lanes_code(lanes, opt_level) + ").fast("@ + decimal(speed_mod as nat) + ")"@
}

/// The code of a file: its tracks stacked.
pub open spec fn file_code(tracks: Seq<(Seq<Seq<QuantizedNote>>, u32)>, opt_level: u32) -> Seq<char>
    decreases tracks.len(),
{
    if tracks.len() == 0 {
        "stack(\n"@
    } else {
        file_code(tracks.drop_last(), opt_level) + track_code(tracks.last().0, tracks.last().1, opt_level) + ",\n"@
    }
}

/// Appends a decimal digit.
fn append_digit(out: &mut String, d: u64)
    requires
        d < 10,
    ensures
        final(out)@ == old(out)@ + digit_str(d as int),
{
    if d == 0 {
        out.append("0");
    } else if d == 1 {
        out.append("1");
    } else if d == 2 {
        out.append("2");
    } else if d == 3 {
        out.append("3");
    } else if d == 4 {
        out.append("4");
    } else if d == 5 {
        out.append("5");
    } else if d == 6 {
        out.append("6");
    } else if d == 7 {
        out.append("7");
    } else if d == 8 {
        out.append("8");
    } else {
        out.append("9");
    }
}

/// The text of digits collected least significant first.
spec fn digits_text(ds: Seq<u64>) -> Seq<char>
    decreases ds.len(),
{
    if ds.len() == 0 {
        Seq::empty()
    } else {
        digit_str(ds.last() as int) + digits_text(ds.drop_last())
    }
}

/// Appends a number in decimal.
pub fn append_decimal(out: &mut String, n: u64)
    ensures
        final(out)@ == old(out)@ + decimal(n as nat),
{
    let ghost base = out@;
    let mut m = n;
    let mut ds: Vec<u64> = Vec::new();
    assert(digits_text(ds@) =~= Seq::<char>::empty());
    while m >= 10
        invariant
            decimal(n as nat) == decimal(m as nat) + digits_text(ds@),
            forall|i: int| 0 <= i < ds@.len() ==> #[trigger] ds@[i] < 10,
        decreases m,
    {
        let ghost old_ds = ds@;
        ds.push(m % 10);
        assert(ds@.drop_last() == old_ds);
        assert(decimal(m as nat) == decimal((m / 10) as nat) + digit_str((m % 10) as int));
        m = m / 10;
    }
    append_digit(out, m);
    let mut j = ds.len();
    assert(ds@.take(j as int) =~= ds@);
    while j > 0
        invariant
            j <= ds@.len(),
            forall|i: int| 0 <= i < ds@.len() ==> #[trigger] ds@[i] < 10,
            out@ + digits_text(ds@.take(j as int)) == base + decimal(n as nat),
        decreases j,
    {
        let ghost before = out@;
        append_digit(out, ds[j - 1]);
        assert(ds@.take(j as int).drop_last() =~= ds@.take(j - 1));
        assert(ds@.take(j as int).last() == ds@[j - 1]);
        j = j - 1;
        assert(out@ + digits_text(ds@.take(j as int)) =~= before + digits_text(ds@.take(j + 1)));
    }
    assert(digits_text(ds@.take(0)) =~= Seq::<char>::empty());
    assert(out@ =~= base + decimal(n as nat));
}

proof fn lemma_run_len(lane: Seq<QuantizedNote>, i: int, q: QuantizedNote)
    requires
        0 <= i <= lane.len(),
    ensures
        run_len(lane, i, q) <= lane.len() - i,
        i < lane.len() && lane[i] == q ==> run_len(lane, i, q) >= 1,
    decreases lane.len() - i,
{
    if i < lane.len() {
        lemma_run_len(lane, i + 1, q);
    }
}

/// The number of steps equal to `q` in a row from `i` on.
fn count_run(lane: &Vec<QuantizedNote>, i: usize, q: QuantizedNote) -> (k: usize)
    requires
        i <= lane@.len(),
    ensures
        k == run_len(lane@, i as int, q),
{
    let n = lane.len();
    let mut j = i;
    while j < n && lane[j] == q
        invariant
            n == lane@.len(),
            i <= j <= n,
            run_len(lane@, i as int, q) == (j - i) + run_len(lane@, j as int, q),
        decreases n - j,
    {
        j = j + 1;
    }
    j - i
}

/// Appends the word for one step.
fn append_step(out: &mut String, q: QuantizedNote)
    ensures
        final(out)@ == old(out)@ + step_text(q),
{
    match q {
        QuantizedNote::Note(p) => append_decimal(out, p as u64),
        QuantizedNote::Rest => out.append("-"),
        QuantizedNote::Hold => out.append("_"),
    }
}

/// Appends a word that lasts `k` steps: `@k` after it when `k` is above one.
fn append_weight(out: &mut String, k: usize)
    ensures
        final(out)@ == old(out)@ + if k <= 1 { Seq::<char>::empty() } else { "@"@ + decimal(k as nat) },
{
    if k > 1 {
        out.append("@");
        append_decimal(out, k as u64);
    } else {
        assert(out@ =~= old(out)@ + Seq::<char>::empty());
    }
}

/// Appends the pattern of one lane.
fn append_lane_code(out: &mut String, lane: &Vec<QuantizedNote>, opt_level: u32)
    ensures
        final(out)@ == old(out)@ + lane_code(lane@, opt_level),
{
    let ghost base = old(out)@;
    let ghost lv = lane@;
    out.append("note(\"");
    let n = lane.len();
    let mut i: usize = 0;
    let ghost mut done: Seq<Seq<char>> = Seq::empty();
    assert(lane_words(lv, opt_level, 0) =~= done + lane_words(lv, opt_level, 0));
    while i < n
        invariant
            n == lv.len(),
            lv == lane@,
            i <= n,
            out@ == base + "note(\""@ + join_words(done),
            lane_words(lv, opt_level, 0) == done + lane_words(lv, opt_level, i as int),
            done.len() == 0 <==> i == 0,
        decreases n - i,
    {
        let ghost joined = out@;
        if i > 0 {
            out.append(" ");
        }
        let ghost before = out@;
        let next: usize;
        proof {
            lemma_run_len(lv, i as int, QuantizedNote::Rest);
            lemma_run_len(lv, i + 1, QuantizedNote::Hold);
        }
        if opt_level == 0 {
            append_step(out, lane[i]);
            next = i + 1;
        } else {
            match lane[i] {
                QuantizedNote::Rest => {
                    let k = count_run(lane, i, QuantizedNote::Rest);
                    out.append("-");
                    append_weight(out, k);
                    next = i + k;
                },
                QuantizedNote::Note(p) => {
                    let k = count_run(lane, i + 1, QuantizedNote::Hold);
                    append_decimal(out, p as u64);
                    append_weight(out, k + 1);
                    next = i + 1 + k;
                },
                QuantizedNote::Hold => {
                    out.append("_");
                    next = i + 1;
                },
            }
        }
        proof {
            let (w, j) = next_word(lv, opt_level, i as int);
            assert(j == next);
            assert(out@ =~= before + w);
            assert(lane_words(lv, opt_level, i as int) == seq![w] + lane_words(lv, opt_level, j));
            let nd = done.push(w);
            assert(nd.drop_last() =~= done);
            if i == 0 {
                assert(join_words(nd) == w);
                assert(out@ =~= base + "note(\""@ + join_words(nd));
            } else {
                assert(out@ =~= base + "note(\""@ + join_words(nd));
            }
            assert(done + (seq![w] + lane_words(lv, opt_level, j)) =~= nd + lane_words(lv, opt_level, j));
            done = nd;
        }
        i = next;
    }
    assert(done + lane_words(lv, opt_level, n as int) =~= done);
    out.append("\").slow(");
    append_decimal(out, n as u64);
    out.append(")");
    assert(out@ =~= base + lane_code(lv, opt_level));
}

/// A track as the lanes and speed its code is made of.
pub open spec fn track_grid(t: QuantizedTrack) -> (Seq<Seq<QuantizedNote>>, u32) {
    (t.lanes@.map_values(|l: Vec<QuantizedNote>| l@), t.speed_mod)
}

/// Appends the code of a track.
fn append_track_code(out: &mut String, track: &QuantizedTrack, opt_level: u32)
    ensures
        final(out)@ == old(out)@ + track_code(track_grid(*track).0, track.speed_mod, opt_level),
{
    let ghost base = old(out)@;
    let ghost lanes = track_grid(*track).0;
    out.append("stack(\n");
    let n = track.lanes.len();
    let mut k: usize = 0;
    assert(lanes.take(0) =~= Seq::<Seq<QuantizedNote>>::empty());
    while k < n
        invariant
            n == track.lanes@.len(),
            lanes == track_grid(*track).0,
            k <= n,
            out@ == base + "stack(\n"@ + lanes_code(lanes.take(k as int), opt_level),
        decreases n - k,
    {
        let lane = &track.lanes[k];
        assert(lanes[k as int] == lane@);
        assert(lanes.take(k + 1).drop_last() =~= lanes.take(k as int));
        assert(lanes.take(k + 1).last() == lane@);
        let ghost before = out@;
        if lane.len() > 0 {
            out.append("  ");
            append_lane_code(out, lane, opt_level);
            out.append(",\n");
            assert(out@ =~= before + ("  "@ + lane_code(lane@, opt_level) + ",\n"@));
        } else {
            assert(out@ =~= before + Seq::<char>::empty());
        }
        k = k + 1;
        assert(out@ =~= base + "stack(\n"@ + lanes_code(lanes.take(k as int), opt_level));
    }
    assert(lanes.take(n as int) =~= lanes);
    out.append(").fast(");
    append_decimal(out, track.speed_mod as u64);
    out.append(")");
    assert(out@ =~= base + track_code(lanes, track.speed_mod, opt_level));
}

/// The Strudel code of a track: each non-empty lane as a pattern of one word
/// per step (or per run of steps, at level 1 and above), the lanes stacked.
pub fn codegen_track(track: QuantizedTrack, opt_level: u32) -> (code: String)
    ensures
        code@ == track_code(track_grid(track).0, track.speed_mod, opt_level),
{
    let mut code = String::new();
    append_track_code(&mut code, &track, opt_level);
    assert(code@ =~= track_code(track_grid(track).0, track.speed_mod, opt_level));
    code
}

/// The Strudel code of a file: the code of each track, the tracks stacked.
pub fn codegen_file(tracks: &Vec<QuantizedTrack>, opt_level: u32) -> (code: String)
    ensures
        code@ == file_code(tracks@.map_values(|t: QuantizedTrack| track_grid(t)), opt_level) + ")\n"@,
{
    let ghost ts = tracks@.map_values(|t: QuantizedTrack| track_grid(t));
    let mut code = String::new();
    code.append("stack(\n");
    assert(code@ == file_code(ts.take(0), opt_level)) by {
        assert(ts.take(0) =~= Seq::<(Seq<Seq<QuantizedNote>>, u32)>::empty());
    }
    let n = tracks.len();
    let mut k: usize = 0;
    while k < n
        invariant
            n == tracks@.len(),
            ts == tracks@.map_values(|t: QuantizedTrack| track_grid(t)),
            k <= n,
            code@ == file_code(ts.take(k as int), opt_level),
        decreases n - k,
    {
        assert(ts.take(k + 1).drop_last() =~= ts.take(k as int));
        assert(ts.take(k + 1).last() == track_grid(tracks@[k as int]));
        append_track_code(&mut code, &tracks[k], opt_level);
        code.append(",\n");
        k = k + 1;
        assert(code@ =~= file_code(ts.take(k as int), opt_level));
    }
    assert(ts.take(n as int) =~= ts);
    code.append(")\n");
    code
}

proof fn lemma_level0_words(lane: Seq<QuantizedNote>, i: int)
    requires
        0 <= i <= lane.len(),
    ensures
        lane_words(lane, 0, i) == lane.subrange(i, lane.len() as int).map_values(|q: QuantizedNote| step_text(q)),
    decreases lane.len() - i,
{
    if i < lane.len() {
        lemma_level0_words(lane, i + 1);
        assert(lane.subrange(i, lane.len() as int).map_values(|q: QuantizedNote| step_text(q))
            =~= seq![step_text(lane[i])] + lane.subrange(i + 1, lane.len() as int).map_values(|q: QuantizedNote| step_text(q)));
    } else {
        assert(lane.subrange(i, lane.len() as int).map_values(|q: QuantizedNote| step_text(q)) =~= Seq::<Seq<char>>::empty());
    }
}

/// At level 0 a lane's pattern has one word per step, in order: the pitch
/// of a note, `-` for a rest, `_` for a hold.
pub proof fn law_level0_one_word_per_step(lane: Seq<QuantizedNote>)
    ensures
        lane_words(lane, 0, 0) == lane.map_values(|q: QuantizedNote| step_text(q)),
{
    lemma_level0_words(lane, 0);
    assert(lane.subrange(0, lane.len() as int) =~= lane);
}

proof fn lemma_words_cover(lane: Seq<QuantizedNote>, opt_level: u32, i: int)
    requires
        0 <= i <= lane.len(),
    ensures
        lane_weight(lane, opt_level, i) == lane.len() - i,
    decreases lane.len() - i,
{
    if i < lane.len() {
        lemma_run_len(lane, i, QuantizedNote::Rest);
        lemma_run_len(lane, i + 1, QuantizedNote::Hold);
        let (w, j) = next_word(lane, opt_level, i);
        lemma_words_cover(lane, opt_level, j);
    }
}

/// The number of steps the words from step `i` on stand for.
pub open spec fn lane_weight(lane: Seq<QuantizedNote>, opt_level: u32, i: int) -> int
    decreases lane.len() - i,
{
    if i < 0 || i >= lane.len() {
        0
    } else {
        let (w, j) = next_word(lane, opt_level, i);
        if j <= i || j > lane.len() {
            0
        } else {
            (j - i) + lane_weight(lane, opt_level, j)
        }
    }
}

/// Collapsing loses no step: at every level the words of a lane stand for
/// all its steps, each word for the steps from where it starts up to where
/// the next one starts.
pub proof fn law_words_cover_all_steps(lane: Seq<QuantizedNote>, opt_level: u32)
    ensures
        lane_weight(lane, opt_level, 0) == lane.len(),
{
    lemma_words_cover(lane, opt_level, 0);
}

proof fn lemma_run_len_exact(lane: Seq<QuantizedNote>, i: int, q: QuantizedNote, k: int)
    requires
        0 <= i,
        0 <= k,
        i + k <= lane.len(),
        forall|j: int| i <= j < i + k ==> lane[j] == q,
        i + k == lane.len() || lane[i + k] != q,
    ensures
        run_len(lane, i, q) == k,
    decreases k,
{
    if k > 0 {
        lemma_run_len_exact(lane, i + 1, q, k - 1);
    }
}

/// Above level 0, a note and all the holds right after it make one word,
/// wherever that run of holds ends (at another step or at the lane's end):
/// the pitch, followed by `@` and the number of steps when it lasts more than
/// one; the next word starts at the first step that is not one of its holds.
pub proof fn law_note_word_takes_its_holds(lane: Seq<QuantizedNote>, opt_level: u32, i: int, k: int, p: u8)
    requires
        opt_level >= 1,
        0 <= i,
        0 <= k,
        i + 1 + k <= lane.len(),
        lane[i] == QuantizedNote::Note(p),
        forall|j: int| i + 1 <= j < i + 1 + k ==> lane[j] == QuantizedNote::Hold,
        i + 1 + k == lane.len() || lane[i + 1 + k] != QuantizedNote::Hold,
    ensures
        lane_words(lane, opt_level, i) == seq![
            if k == 0 { decimal(p as nat) } else { decimal(p as nat) + "@"@ + decimal((k + 1) as nat) }
        ] + lane_words(lane, opt_level, i + 1 + k),
{
    lemma_run_len_exact(lane, i + 1, QuantizedNote::Hold, k);
}

/// Above level 0, all the rests in a row make one word: `-`, followed by `@`
/// and their number when there is more than one; the next word starts at the
/// first step after them.
pub proof fn law_rests_make_one_word(lane: Seq<QuantizedNote>, opt_level: u32, i: int, k: int)
    requires
        opt_level >= 1,
        0 <= i,
        1 <= k,
        i + k <= lane.len(),
        forall|j: int| i <= j < i + k ==> lane[j] == QuantizedNote::Rest,
        i + k == lane.len() || lane[i + k] != QuantizedNote::Rest,
    ensures
        lane_words(lane, opt_level, i) == seq![
            if k == 1 { "-"@ } else { "-"@ + "@"@ + decimal(k as nat) }
        ] + lane_words(lane, opt_level, i + k),
{
    lemma_run_len_exact(lane, i, QuantizedNote::Rest, k);
}

/// Above level 0, a hold that follows no note (one at the start of a lane or
/// after a rest) is a word of its own, `_`.
pub proof fn law_lone_hold_is_one_word(lane: Seq<QuantizedNote>, opt_level: u32, i: int)
    requires
        opt_level >= 1,
        0 <= i < lane.len(),
        lane[i] == QuantizedNote::Hold,
    ensures
        lane_words(lane, opt_level, i) == seq!["_"@] + lane_words(lane, opt_level, i + 1),
{
}

/// The number that a string of decimal digits stands for.
pub open spec fn digits_value(t: Seq<char>) -> int
    decreases t.len(),
{
    if t.len() == 0 {
        0
    } else {
        digits_value(t.drop_last()) * 10 + (t.last() as int - '0' as int)
    }
}

proof fn lemma_digit_str(d: int)
    requires
        0 <= d < 10,
    ensures
        digit_str(d).len() == 1,
        digit_str(d)[0] as int == '0' as int + d,
{
    reveal_strlit("0");
    reveal_strlit("1");
    reveal_strlit("2");
    reveal_strlit("3");
    reveal_strlit("4");
    reveal_strlit("5");
    reveal_strlit("6");
    reveal_strlit("7");
    reveal_strlit("8");
    reveal_strlit("9");
}

/// A number is written as its decimal digits, most significant first and
/// without a leading zero: reading the digits back gives the number.
pub proof fn law_decimal_reads_back(n: nat)
    ensures
        decimal(n).len() >= 1,
        forall|i: int| 0 <= i < decimal(n).len() ==> '0' <= #[trigger] decimal(n)[i] <= '9',
        n > 0 ==> decimal(n)[0] != '0',
        digits_value(decimal(n)) == n,
    decreases n,
{
    if n < 10 {
        lemma_digit_str(n as int);
        let t = decimal(n);
        assert(t.drop_last() =~= Seq::<char>::empty());
        assert(digits_value(t.drop_last()) == 0);
        assert(t.last() == t[0]);
    } else {
        law_decimal_reads_back(n / 10);
        lemma_digit_str((n % 10) as int);
        let h = decimal(n / 10);
        let t = decimal(n);
        assert(t == h + digit_str((n % 10) as int));
        assert(t.drop_last() =~= h);
        assert(t[0] == h[0]);
        assert forall|i: int| 0 <= i < t.len() implies '0' <= #[trigger] t[i] <= '9' by {
            if i < h.len() {
                assert(t[i] == h[i]);
            }
        }
        assert(t.last() == digit_str((n % 10) as int)[0]);
        assert(digits_value(t) == digits_value(h) * 10 + (t.last() as int - '0' as int));
        assert(n == (n / 10) * 10 + n % 10);
    }
}

} // verus!
