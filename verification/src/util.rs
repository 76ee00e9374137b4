//! Input-shaping helpers: wrapping an index into a range, and cutting raw
//! text into lines or separator-delimited fields.

use vstd::prelude::*;
use vstd::string::StrSliceExecFns;
use vstd::string::StringExecFns;

verus! {

/// The euclidean remainder of `x` by `len`, as the double-remainder
/// formula `((x % len) + len) % len` computes it.
pub open spec fn wrap_mod(x: int, len: int) -> int {
    ((x % len) + len) % len
}

/// Wraps `index` into `[0, len)` as a euclidean remainder, so that negative
/// indices count back from the end.
pub fn wrap_index(index: i64, len: i64) -> (r: i64)
    requires
        0 < len <= 0x4000_0000_0000_0000,
    ensures
        r == wrap_mod(index as int, len as int),
        0 <= r < len,
{
    match index.checked_rem_euclid(len) {
        Some(r) => {
            proof {
                vstd::arithmetic::div_mod::lemma_mod_add_multiples_vanish(
                    index as int % len as int,
                    len as int,
                );
                vstd::arithmetic::div_mod::lemma_small_mod(
                    (index as int % len as int) as nat,
                    len as nat,
                );
            }
            r
        },
        None => {
            proof {
                assert(false);
            }
            0
        },
    }
}

/// The pieces of `s` between occurrences of `sep`: always one more piece
/// than there are separators, so never empty.
pub open spec fn split_char(s: Seq<char>, sep: char) -> Seq<Seq<char>>
    decreases s.len(),
{
    if s.len() == 0 {
        seq![Seq::<char>::empty()]
    } else if s[0] == sep {
        seq![Seq::<char>::empty()] + split_char(s.drop_first(), sep)
    } else {
        let rest = split_char(s.drop_first(), sep);
        seq![seq![s[0]] + rest[0]] + rest.drop_first()
    }
}

pub proof fn lemma_split_char_len(s: Seq<char>, sep: char)
    ensures
        split_char(s, sep).len() >= 1,
    decreases s.len(),
{
    if s.len() != 0 {
        lemma_split_char_len(s.drop_first(), sep);
    }
}

/// A piece with its trailing carriage return removed, if it has one.
pub open spec fn strip_cr(s: Seq<char>) -> Seq<char> {
    if s.len() > 0 && s.last() == '\r' {
        s.drop_last()
    } else {
        s
    }
}

/// The lines of `s`: pieces between newlines, each stripped of a trailing
/// carriage return; a final newline ends the last line rather than opening an
/// empty one, and a last line without a newline is kept as it stands.
pub open spec fn lines_of(s: Seq<char>) -> Seq<Seq<char>> {
    if s.len() == 0 {
        Seq::empty()
    } else {
        let parts = split_char(s, '\n');
        if s.last() == '\n' {
            parts.drop_last().map_values(|p: Seq<char>| strip_cr(p))
        } else {
            parts.drop_last().map_values(|p: Seq<char>| strip_cr(p)).push(parts.last())
        }
    }
}

/// Splits `s` at every occurrence of `sep`.
pub fn split_str(s: &str, sep: char) -> (parts: Vec<String>)
    ensures
        parts@.len() == split_char(s@, sep).len(),
        forall|j: int| 0 <= j < parts@.len() ==> parts@[j]@ == split_char(s@, sep)[j],
{
    let ghost whole = s@;
    let n = s.unicode_len();
    let mut parts: Vec<String> = Vec::new();
    let ghost mut rawdone: Seq<Seq<char>> = Seq::empty();
    let mut start: usize = 0;
    let mut i: usize = 0;
    proof {
        lemma_split_char_len(whole, sep);
        assert(whole.subrange(0, n as int) =~= whole);
        let sp = split_char(whole, sep);
        assert(whole.subrange(0, 0) + sp[0] =~= sp[0]);
        assert(sp =~= Seq::<Seq<char>>::empty() + (seq![whole.subrange(0, 0) + sp[0]]
            + sp.drop_first()));
    }
    while i < n
        invariant
            whole == s@,
            n == whole.len(),
            start <= i <= n,
            parts@.len() == rawdone.len(),
            forall|j: int| 0 <= j < rawdone.len() ==> parts@[j]@ == rawdone[j],
            split_char(whole, sep) == rawdone + (seq![
                whole.subrange(start as int, i as int) + split_char(
                    whole.subrange(i as int, n as int),
                    sep,
                )[0],
            ] + split_char(whole.subrange(i as int, n as int), sep).drop_first()),
        decreases n - i,
    {
        let ghost suffix = whole.subrange(i as int, n as int);
        let ghost nsuffix = whole.subrange(i + 1, n as int);
        let ghost cur = whole.subrange(start as int, i as int);
        proof {
            assert(suffix.len() > 0);
            assert(suffix[0] == whole[i as int]);
            assert(suffix.drop_first() =~= nsuffix);
            lemma_split_char_len(nsuffix, sep);
        }
        let c = s.get_char(i);
        if c == sep {
            let piece = String::from_str(s.substring_char(start, i));
            parts.push(piece);
            proof {
                let sp = split_char(nsuffix, sep);
                assert(split_char(suffix, sep) == seq![Seq::<char>::empty()] + sp);
                assert(rawdone + (seq![cur + split_char(suffix, sep)[0]] + split_char(
                    suffix,
                    sep,
                ).drop_first()) =~= rawdone.push(cur) + (seq![
                    whole.subrange(i + 1, i + 1) + sp[0],
                ] + sp.drop_first()));
                rawdone = rawdone.push(cur);
            }
            start = i + 1;
        } else {
            proof {
                let sp = split_char(nsuffix, sep);
                assert(split_char(suffix, sep) == seq![seq![suffix[0]] + sp[0]]
                    + sp.drop_first());
                assert(cur + split_char(suffix, sep)[0] =~= whole.subrange(start as int, i + 1)
                    + sp[0]);
                assert(rawdone + (seq![cur + split_char(suffix, sep)[0]] + split_char(
                    suffix,
                    sep,
                ).drop_first()) =~= rawdone + (seq![whole.subrange(start as int, i + 1) + sp[0]]
                    + sp.drop_first()));
            }
        }
        i += 1;
    }
    let piece = String::from_str(s.substring_char(start, n));
    parts.push(piece);
    proof {
        let cur = whole.subrange(start as int, n as int);
        assert(whole.subrange(n as int, n as int) =~= Seq::<char>::empty());
        assert(split_char(Seq::<char>::empty(), sep) == seq![Seq::<char>::empty()]);
        assert(split_char(whole, sep) =~= rawdone.push(cur)) by {
            assert(cur + split_char(whole.subrange(n as int, n as int), sep)[0] =~= cur);
            assert(rawdone + (seq![
                cur + split_char(whole.subrange(n as int, n as int), sep)[0],
            ] + split_char(whole.subrange(n as int, n as int), sep).drop_first())
                =~= rawdone.push(cur));
        }
    }
    parts
}

/// Cuts raw input text into lines, as [`lines_of`] describes.
pub fn read_lines(input: &str) -> (lines: Vec<String>)
    ensures
        lines@.len() == lines_of(input@).len(),
        forall|j: int| 0 <= j < lines@.len() ==> lines@[j]@ == lines_of(input@)[j],
{
    let ghost whole = input@;
    let n = input.unicode_len();
    let mut lines: Vec<String> = Vec::new();
    let ghost mut rawdone: Seq<Seq<char>> = Seq::empty();
    let mut start: usize = 0;
    let mut i: usize = 0;
    proof {
        lemma_split_char_len(whole, '\n');
        assert(whole.subrange(0, n as int) =~= whole);
        let sp = split_char(whole, '\n');
        assert(whole.subrange(0, 0) + sp[0] =~= sp[0]);
        assert(sp =~= Seq::<Seq<char>>::empty() + (seq![whole.subrange(0, 0) + sp[0]]
            + sp.drop_first()));
    }
    while i < n
        invariant
            whole == input@,
            n == whole.len(),
            start <= i <= n,
            lines@.len() == rawdone.len(),
            forall|j: int| 0 <= j < rawdone.len() ==> lines@[j]@ == strip_cr(#[trigger] rawdone[j]),
            forall|j: int| start <= j < i ==> whole[j] != '\n',
            start == 0 || whole[start - 1] == '\n',
            split_char(whole, '\n') == rawdone + (seq![
                whole.subrange(start as int, i as int) + split_char(
                    whole.subrange(i as int, n as int),
                    '\n',
                )[0],
            ] + split_char(whole.subrange(i as int, n as int), '\n').drop_first()),
        decreases n - i,
    {
        let ghost suffix = whole.subrange(i as int, n as int);
        let ghost nsuffix = whole.subrange(i + 1, n as int);
        let ghost cur = whole.subrange(start as int, i as int);
        proof {
            assert(suffix.len() > 0);
            assert(suffix[0] == whole[i as int]);
            assert(suffix.drop_first() =~= nsuffix);
            lemma_split_char_len(nsuffix, '\n');
        }
        let c = input.get_char(i);
        if c == '\n' {
            let end = if i > start && input.get_char(i - 1) == '\r' {
                i - 1
            } else {
                i
            };
            proof {
                assert(strip_cr(cur) =~= whole.subrange(start as int, end as int));
            }
            let piece = String::from_str(input.substring_char(start, end));
            lines.push(piece);
            proof {
                let sp = split_char(nsuffix, '\n');
                assert(split_char(suffix, '\n') == seq![Seq::<char>::empty()] + sp);
                assert(rawdone + (seq![cur + split_char(suffix, '\n')[0]] + split_char(
                    suffix,
                    '\n',
                ).drop_first()) =~= rawdone.push(cur) + (seq![
                    whole.subrange(i + 1, i + 1) + sp[0],
                ] + sp.drop_first()));
                rawdone = rawdone.push(cur);
            }
            start = i + 1;
        } else {
            proof {
                let sp = split_char(nsuffix, '\n');
                assert(split_char(suffix, '\n') == seq![seq![suffix[0]] + sp[0]]
                    + sp.drop_first());
                assert(cur + split_char(suffix, '\n')[0] =~= whole.subrange(start as int, i + 1)
                    + sp[0]);
                assert(rawdone + (seq![cur + split_char(suffix, '\n')[0]] + split_char(
                    suffix,
                    '\n',
                ).drop_first()) =~= rawdone + (seq![whole.subrange(start as int, i + 1) + sp[0]]
                    + sp.drop_first()));
            }
        }
        i += 1;
    }
    proof {
        let cur = whole.subrange(start as int, n as int);
        assert(whole.subrange(n as int, n as int) =~= Seq::<char>::empty());
        assert(split_char(whole, '\n') =~= rawdone.push(cur)) by {
            assert(cur + split_char(whole.subrange(n as int, n as int), '\n')[0] =~= cur);
            assert(rawdone + (seq![
                cur + split_char(whole.subrange(n as int, n as int), '\n')[0],
            ] + split_char(whole.subrange(n as int, n as int), '\n').drop_first())
                =~= rawdone.push(cur));
        }
    }
    if start < n {
        let piece = String::from_str(input.substring_char(start, n));
        lines.push(piece);
        proof {
            let parts = split_char(whole, '\n');
            let cur = whole.subrange(start as int, n as int);
            assert(whole[n - 1] != '\n');
            assert(whole.last() != '\n');
            assert(parts.drop_last() =~= rawdone);
            assert(parts.last() == cur);
            let mapped = parts.drop_last().map_values(|p: Seq<char>| strip_cr(p));
            assert(lines_of(whole) == mapped.push(parts.last()));
            assert(lines@.len() == lines_of(whole).len());
            assert forall|j: int| 0 <= j < lines@.len() implies lines@[j]@ == lines_of(whole)[j] by {
                if j < rawdone.len() {
                    assert(mapped[j] == strip_cr(rawdone[j]));
                }
            }
        }
    } else {
        proof {
            if whole.len() == 0 {
                assert(lines_of(whole) =~= Seq::<Seq<char>>::empty());
                assert(rawdone.len() == 0) by {
                    assert(split_char(whole, '\n').len() == 1);
                }
            } else {
                let parts = split_char(whole, '\n');
                let cur = whole.subrange(start as int, n as int);
                assert(whole[start - 1] == '\n');
                assert(whole.last() == '\n');
                assert(parts.drop_last() =~= rawdone);
                let mapped = parts.drop_last().map_values(|p: Seq<char>| strip_cr(p));
                assert(lines_of(whole) == mapped);
                assert forall|j: int| 0 <= j < lines@.len() implies lines@[j]@ == lines_of(
                    whole,
                )[j] by {
                    assert(mapped[j] == strip_cr(rawdone[j]));
                }
            }
        }
    }
    lines
}

} // verus!
