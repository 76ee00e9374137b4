//! The name-wheel rotation rules: textual rotate-left / rotate-right
//! commands applied to a list of names, with a clamped cursor, a wrapping
//! cursor, or a swap with the front position.

use crate::util::{split_str, wrap_index, wrap_mod, split_char};
use vstd::prelude::*;
use vstd::string::StrSliceExecFns;

verus! {

/// Largest command amount accepted, the largest value a 32-bit parse allows.
pub const MAX_AMOUNT: i64 = 0x7fff_ffff;

/// Largest accepted name count; keeps cursor arithmetic inside `i64`.
pub const MAX_NAMES: usize = 0x7fff_ffff;

/// One rotation command: a direction and a non-negative amount.
#[derive(Clone, Copy, PartialEq, Eq, Structural, Debug)]
pub struct Command {
    pub right: bool,
    pub amount: i64,
}

pub open spec fn is_digit(c: char) -> bool {
    48 <= c as int <= 57
}

pub open spec fn all_digits(s: Seq<char>) -> bool {
    forall|i: int| 0 <= i < s.len() ==> is_digit(#[trigger] s[i])
}

/// The number the decimal digits of `s` spell.
pub open spec fn digits_value(s: Seq<char>) -> int
    decreases s.len(),
{
    if s.len() == 0 {
        0
    } else {
        digits_value(s.drop_last()) * 10 + (s.last() as int - 48)
    }
}

/// A well-formed command text: a direction letter, then at least one digit,
/// spelling an amount the parser accepts.
pub open spec fn parses(s: Seq<char>) -> bool {
    &&& s.len() >= 2
    &&& (s[0] == 'R' || s[0] == 'L')
    &&& all_digits(s.drop_first())
    &&& digits_value(s.drop_first()) <= MAX_AMOUNT
}

pub open spec fn parsed_of(s: Seq<char>) -> Command {
    Command { right: s[0] == 'R', amount: digits_value(s.drop_first()) as i64 }
}

proof fn lemma_digits_value_bounds(s: Seq<char>)
    requires
        all_digits(s),
    ensures
        0 <= digits_value(s),
    decreases s.len(),
{
    if s.len() > 0 {
        assert(all_digits(s.drop_last())) by {
            assert(forall|i: int| 0 <= i < s.len() - 1 ==> s.drop_last()[i] == s[i]);
        }
        lemma_digits_value_bounds(s.drop_last());
    }
}

/// Reads a command text: its first character must be `R` or `L` and the rest
/// decimal digits spelling an amount of at most [`MAX_AMOUNT`]; anything
/// else is refused.
pub fn parse_command(s: &str) -> (r: Option<Command>)
    ensures
        r matches Some(cmd) ==> parses(s@) && cmd == parsed_of(s@),
        r is None ==> !parses(s@),
{
    let n = s.unicode_len();
    if n < 2 {
        return None;
    }
    let dir = s.get_char(0);
    if dir != 'R' && dir != 'L' {
        return None;
    }
    let ghost digits = s@.drop_first();
    let mut acc: i64 = 0;
    let mut i: usize = 1;
    while i < n
        invariant
            n == s@.len(),
            n >= 2,
            1 <= i <= n,
            digits == s@.drop_first(),
            all_digits(digits.subrange(0, i - 1)),
            acc == digits_value(digits.subrange(0, i - 1)),
            0 <= acc <= MAX_AMOUNT,
        decreases n - i,
    {
        let c = s.get_char(i);
        let code = c as u32;
        if code < 48 || code > 57 {
            proof {
                assert(digits[i - 1] == c);
                assert(!is_digit(digits[i - 1]));
            }
            return None;
        }
        let d = (code - 48) as i64;
        if acc > (MAX_AMOUNT - d) / 10 {
            proof {
                lemma_digits_prefix_grows(digits, i - 1);
                assert(digits.subrange(0, i as int).drop_last() =~= digits.subrange(0, i - 1));
                assert(digits.subrange(0, i as int).last() == digits[i - 1]);
                assert(digits[i - 1] == c);
                assert(digits_value(digits.subrange(0, i as int)) == acc * 10 + d);
                assert(acc * 10 + d > MAX_AMOUNT) by (nonlinear_arith)
                    requires
                        acc > (MAX_AMOUNT - d) / 10,
                        0 <= d <= 9,
                        acc >= 0,
                ;
                if parses(s@) {
                    assert(digits.subrange(0, digits.len() as int) =~= digits);
                    lemma_digits_prefix_at_most(digits, i as int);
                }
            }
            return None;
        }
        proof {
            assert(digits.subrange(0, i as int).drop_last() =~= digits.subrange(0, i - 1));
            assert(digits.subrange(0, i as int).last() == digits[i - 1]);
            assert(digits[i - 1] == c);
            assert(acc * 10 + d <= MAX_AMOUNT) by (nonlinear_arith)
                requires
                    acc <= (MAX_AMOUNT - d) / 10,
                    0 <= d <= 9,
                    acc >= 0,
            ;
            assert(all_digits(digits.subrange(0, i as int))) by {
                assert(forall|t: int|
                    0 <= t < i - 1 ==> digits.subrange(0, i as int)[t] == digits.subrange(
                        0,
                        i - 1,
                    )[t]);
                assert(digits.subrange(0, i as int)[i - 1] == digits[i - 1]);
            }
        }
        acc = acc * 10 + d;
        i += 1;
    }
    proof {
        assert(digits.subrange(0, digits.len() as int) =~= digits);
    }
    Some(Command { right: dir == 'R', amount: acc })
}

/// A longer digit prefix never spells a smaller number.
proof fn lemma_digits_prefix_grows(s: Seq<char>, i: int)
    requires
        0 <= i < s.len(),
        all_digits(s.subrange(0, i + 1)),
    ensures
        digits_value(s.subrange(0, i + 1)) >= digits_value(s.subrange(0, i)),
{
    assert(s.subrange(0, i + 1).drop_last() =~= s.subrange(0, i));
    assert(all_digits(s.subrange(0, i))) by {
        assert(forall|t: int| 0 <= t < i ==> s.subrange(0, i)[t] == s.subrange(0, i + 1)[t]);
    }
    lemma_digits_value_bounds(s.subrange(0, i));
    let v = digits_value(s.subrange(0, i));
    assert(v * 10 >= v) by (nonlinear_arith)
        requires
            v >= 0,
    ;
    assert(is_digit(s.subrange(0, i + 1).last()));
}

/// A prefix of a digit string spells at most what the whole spells.
proof fn lemma_digits_prefix_at_most(s: Seq<char>, i: int)
    requires
        0 <= i <= s.len(),
        all_digits(s),
    ensures
        digits_value(s.subrange(0, i)) <= digits_value(s.subrange(0, s.len() as int)),
    decreases s.len() - i,
{
    if i < s.len() {
        assert(all_digits(s.subrange(0, i + 1))) by {
            assert(forall|t: int| 0 <= t < i + 1 ==> s.subrange(0, i + 1)[t] == s[t]);
        }
        lemma_digits_prefix_grows(s, i);
        lemma_digits_prefix_at_most(s, i + 1);
    }
}

/// The signed offset a command stands for.
pub open spec fn offset_of(cmd: Command) -> int {
    if cmd.right {
        cmd.amount as int
    } else {
        -(cmd.amount as int)
    }
}

pub open spec fn clamp_index(x: int, len: int) -> int {
    if x < 0 {
        0
    } else if x > len - 1 {
        len - 1
    } else {
        x
    }
}

/// The cursor after applying all commands with clamping at the ends.
pub open spec fn clamp_walk(cmds: Seq<Command>, len: int, pos: int) -> int
    decreases cmds.len(),
{
    if cmds.len() == 0 {
        pos
    } else {
        clamp_walk(cmds.drop_first(), len, clamp_index(pos + offset_of(cmds[0]), len))
    }
}

/// The cursor after applying all commands with wrap-around.
pub open spec fn wrap_walk(cmds: Seq<Command>, len: int, pos: int) -> int
    decreases cmds.len(),
{
    if cmds.len() == 0 {
        pos
    } else {
        wrap_walk(cmds.drop_first(), len, wrap_mod(pos + offset_of(cmds[0]), len))
    }
}

/// `names` with positions `0` and `t` exchanged.
pub open spec fn swap_front(names: Seq<Seq<char>>, t: int) -> Seq<Seq<char>> {
    names.update(0, names[t]).update(t, names[0])
}

/// The list after applying all commands, each swapping the front with the
/// position its own amount names, wrapped.
pub open spec fn swap_walk(cmds: Seq<Command>, names: Seq<Seq<char>>) -> Seq<Seq<char>>
    decreases cmds.len(),
{
    if cmds.len() == 0 {
        names
    } else {
        swap_walk(
            cmds.drop_first(),
            swap_front(names, wrap_mod(offset_of(cmds[0]), names.len() as int)),
        )
    }
}

proof fn lemma_clamp_walk_in_range(cmds: Seq<Command>, len: int, pos: int)
    requires
        0 < len,
        0 <= pos < len,
    ensures
        0 <= clamp_walk(cmds, len, pos) < len,
    decreases cmds.len(),
{
    if cmds.len() > 0 {
        lemma_clamp_walk_in_range(cmds.drop_first(), len, clamp_index(pos + offset_of(cmds[0]), len));
    }
}

proof fn lemma_wrap_walk_in_range(cmds: Seq<Command>, len: int, pos: int)
    requires
        0 < len,
        0 <= pos < len,
    ensures
        0 <= wrap_walk(cmds, len, pos) < len,
    decreases cmds.len(),
{
    if cmds.len() > 0 {
        lemma_wrap_walk_in_range(cmds.drop_first(), len, wrap_mod(pos + offset_of(cmds[0]), len));
    }
}

/// Applies the clamped walk of the first puzzle part.
fn run_clamp_walk(cmds: &Vec<Command>, len: i64) -> (r: i64)
    requires
        0 < len <= MAX_NAMES,
        forall|j: int| 0 <= j < cmds@.len() ==> 0 <= (#[trigger] cmds@[j]).amount <= MAX_AMOUNT,
    ensures
        r == clamp_walk(cmds@, len as int, 0),
        0 <= r < len,
{
    let mut cur: i64 = 0;
    let mut i: usize = 0;
    proof {
        assert(cmds@.subrange(0, cmds@.len() as int) =~= cmds@);
    }
    while i < cmds.len()
        invariant
            0 < len <= MAX_NAMES,
            forall|j: int| 0 <= j < cmds@.len() ==> 0 <= (#[trigger] cmds@[j]).amount <= MAX_AMOUNT,
            i <= cmds@.len(),
            0 <= cur < len,
            clamp_walk(cmds@, len as int, 0) == clamp_walk(
                cmds@.subrange(i as int, cmds@.len() as int),
                len as int,
                cur as int,
            ),
        decreases cmds@.len() - i,
    {
        let ghost suffix = cmds@.subrange(i as int, cmds@.len() as int);
        proof {
            assert(suffix[0] == cmds@[i as int]);
            assert(suffix.drop_first() =~= cmds@.subrange(i + 1, cmds@.len() as int));
        }
        let cmd = cmds[i];
        let moved = if cmd.right {
            cur + cmd.amount
        } else {
            cur - cmd.amount
        };
        cur = if moved < 0 {
            0
        } else if moved > len - 1 {
            len - 1
        } else {
            moved
        };
        i += 1;
    }
    proof {
        assert(cmds@.subrange(cmds@.len() as int, cmds@.len() as int) =~= Seq::<Command>::empty());
    }
    cur
}

/// Applies the wrapping walk of the second puzzle part.
fn run_wrap_walk(cmds: &Vec<Command>, len: i64) -> (r: i64)
    requires
        0 < len <= MAX_NAMES,
        forall|j: int| 0 <= j < cmds@.len() ==> 0 <= (#[trigger] cmds@[j]).amount <= MAX_AMOUNT,
    ensures
        r == wrap_walk(cmds@, len as int, 0),
        0 <= r < len,
{
    let mut cur: i64 = 0;
    let mut i: usize = 0;
    proof {
        assert(cmds@.subrange(0, cmds@.len() as int) =~= cmds@);
    }
    while i < cmds.len()
        invariant
            0 < len <= MAX_NAMES,
            forall|j: int| 0 <= j < cmds@.len() ==> 0 <= (#[trigger] cmds@[j]).amount <= MAX_AMOUNT,
            i <= cmds@.len(),
            0 <= cur < len,
            wrap_walk(cmds@, len as int, 0) == wrap_walk(
                cmds@.subrange(i as int, cmds@.len() as int),
                len as int,
                cur as int,
            ),
        decreases cmds@.len() - i,
    {
        let ghost suffix = cmds@.subrange(i as int, cmds@.len() as int);
        proof {
            assert(suffix[0] == cmds@[i as int]);
            assert(suffix.drop_first() =~= cmds@.subrange(i + 1, cmds@.len() as int));
        }
        let cmd = cmds[i];
        let moved = if cmd.right {
            cur + cmd.amount
        } else {
            cur - cmd.amount
        };
        cur = wrap_index(moved, len);
        i += 1;
    }
    proof {
        assert(cmds@.subrange(cmds@.len() as int, cmds@.len() as int) =~= Seq::<Command>::empty());
    }
    cur
}

/// The views of a list of names.
pub open spec fn views_of(names: Seq<String>) -> Seq<Seq<char>> {
    names.map_values(|s: String| s@)
}

/// Applies the swapping walk of the third puzzle part.
fn run_swap_walk(cmds: &Vec<Command>, names: &mut Vec<String>) -> (r: ())
    requires
        0 < old(names)@.len() <= MAX_NAMES,
        forall|j: int| 0 <= j < cmds@.len() ==> 0 <= (#[trigger] cmds@[j]).amount <= MAX_AMOUNT,
    ensures
        final(names)@.len() == old(names)@.len(),
        views_of(final(names)@) == swap_walk(cmds@, views_of(old(names)@)),
{
    let len = names.len();
    let mut i: usize = 0;
    proof {
        assert(cmds@.subrange(0, cmds@.len() as int) =~= cmds@);
    }
    while i < cmds.len()
        invariant
            0 < len <= MAX_NAMES,
            names@.len() == len,
            forall|j: int| 0 <= j < cmds@.len() ==> 0 <= (#[trigger] cmds@[j]).amount <= MAX_AMOUNT,
            i <= cmds@.len(),
            swap_walk(cmds@, views_of(old(names)@)) == swap_walk(
                cmds@.subrange(i as int, cmds@.len() as int),
                views_of(names@),
            ),
        decreases cmds@.len() - i,
    {
        let ghost suffix = cmds@.subrange(i as int, cmds@.len() as int);
        let ghost before = views_of(names@);
        proof {
            assert(suffix[0] == cmds@[i as int]);
            assert(suffix.drop_first() =~= cmds@.subrange(i + 1, cmds@.len() as int));
        }
        let cmd = cmds[i];
        let moved = if cmd.right {
            cmd.amount
        } else {
            -cmd.amount
        };
        let t = wrap_index(moved, len as i64) as usize;
        let front = names[0].clone();
        let picked = names[t].clone();
        names.set(0, picked);
        names.set(t, front);
        proof {
            assert(views_of(names@) =~= swap_front(before, t as int)) by {
                assert(forall|q: int|
                    0 <= q < names@.len() ==> views_of(names@)[q] == (#[trigger] names@[q])@);
                assert(names@[t as int]@ == before[0]);
                if t != 0 {
                    assert(names@[0]@ == before[t as int]);
                }
            }
        }
        i += 1;
    }
    proof {
        assert(cmds@.subrange(cmds@.len() as int, cmds@.len() as int) =~= Seq::<Command>::empty());
    }
}

/// The command texts of an input: the third line, cut at commas.
pub open spec fn command_texts(lines: Seq<Seq<char>>) -> Seq<Seq<char>> {
    split_char(lines[2], ',')
}

/// The name list of an input: the first line, cut at commas.
pub open spec fn name_texts(lines: Seq<Seq<char>>) -> Seq<Seq<char>> {
    split_char(lines[0], ',')
}

/// An input `solve` accepts for a given part: three lines at least, a name
/// list the cursor arithmetic can address, and well-formed commands.
pub open spec fn solvable(part: u32, lines: Seq<Seq<char>>) -> bool {
    &&& 1 <= part <= 3
    &&& lines.len() >= 3
    &&& name_texts(lines).len() <= MAX_NAMES
    &&& forall|j: int|
        0 <= j < command_texts(lines).len() ==> parses(#[trigger] command_texts(lines)[j])
}

/// The name `solve` answers on an accepted input.
pub open spec fn solution(part: u32, lines: Seq<Seq<char>>) -> Seq<char> {
    let names = name_texts(lines);
    let cmds = command_texts(lines).map_values(|s: Seq<char>| parsed_of(s));
    if part == 1 {
        names[clamp_walk(cmds, names.len() as int, 0)]
    } else if part == 2 {
        names[wrap_walk(cmds, names.len() as int, 0)]
    } else {
        swap_walk(cmds, names)[0]
    }
}

/// Solves one puzzle part on its input lines: the first line names the wheel,
/// the third the comma-separated commands. Returns the selected name, or
/// nothing when the part is unknown, lines are missing, a command is
/// malformed, or the name list is too long to address.
pub fn solve(part: u32, lines: &Vec<String>) -> (r: Option<String>)
    ensures
        r is Some <==> solvable(part, views_of(lines@)),
        r matches Some(name) ==> name@ == solution(part, views_of(lines@)),
{
    let ghost lviews = views_of(lines@);
    if part < 1 || part > 3 {
        return None;
    }
    if lines.len() < 3 {
        return None;
    }
    proof {
        assert(lviews[0] == lines@[0]@);
        assert(lviews[2] == lines@[2]@);
    }
    let names = split_str(lines[0].as_str(), ',');
    let raw = split_str(lines[2].as_str(), ',');
    if names.len() > MAX_NAMES {
        proof {
            assert(name_texts(lviews).len() == names@.len());
        }
        return None;
    }
    let mut cmds: Vec<Command> = Vec::new();
    let mut i: usize = 0;
    while i < raw.len()
        invariant
            lviews == views_of(lines@),
            raw@.len() == command_texts(lviews).len(),
            forall|j: int| 0 <= j < raw@.len() ==> (#[trigger] raw@[j])@ == command_texts(lviews)[j],
            i <= raw@.len(),
            cmds@.len() == i,
            forall|j: int| 0 <= j < i ==> parses(#[trigger] command_texts(lviews)[j]),
            forall|j: int| 0 <= j < i ==> cmds@[j] == parsed_of(#[trigger] command_texts(lviews)[j]),
        decreases raw@.len() - i,
    {
        match parse_command(raw[i].as_str()) {
            Some(cmd) => {
                cmds.push(cmd);
            },
            None => {
                proof {
                    assert(!parses(command_texts(lviews)[i as int]));
                    assert(!solvable(part, lviews)) by {
                        if solvable(part, lviews) {
                            assert(parses(command_texts(lviews)[i as int]));
                        }
                    }
                }
                return None;
            },
        }
        i += 1;
    }
    proof {
        assert(cmds@ =~= command_texts(lviews).map_values(|s: Seq<char>| parsed_of(s)));
        assert forall|j: int|
            0 <= j < cmds@.len() implies 0 <= (#[trigger] cmds@[j]).amount <= MAX_AMOUNT by {
            assert(parses(command_texts(lviews)[j]));
            lemma_digits_value_bounds(command_texts(lviews)[j].drop_first());
        }
        crate::util::lemma_split_char_len(lviews[0], ',');
        assert(names@.len() >= 1);
        assert(views_of(names@) =~= name_texts(lviews));
    }
    let len = names.len() as i64;
    if part == 1 {
        proof {
            lemma_clamp_walk_in_range(cmds@, len as int, 0);
        }
        let idx = run_clamp_walk(&cmds, len);
        let answer = names[idx as usize].clone();
        proof {
            assert(answer@ == name_texts(lviews)[idx as int]);
        }
        Some(answer)
    } else if part == 2 {
        proof {
            lemma_wrap_walk_in_range(cmds@, len as int, 0);
        }
        let idx = run_wrap_walk(&cmds, len);
        let answer = names[idx as usize].clone();
        proof {
            assert(answer@ == name_texts(lviews)[idx as int]);
        }
        Some(answer)
    } else {
        let mut wheel = names;
        run_swap_walk(&cmds, &mut wheel);
        let answer = wheel[0].clone();
        proof {
            assert(views_of(wheel@)[0] == wheel@[0]@);
            assert(answer@ == swap_walk(cmds@, name_texts(lviews))[0]);
        }
        Some(answer)
    }
}

} // verus!
